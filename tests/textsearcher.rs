use python_comm::record::{RecordFault, SearchError, TextSearcherForSerde};
use python_comm::registry::{text_search_match, text_search_subst, TextSearcherManager};
use python_comm::text_searcher::{KeywordNode, TextSearcher};

const SEVEN: [&str; 7] = ["a", "ab", "bab", "bc", "bca", "c", "caa"];

fn searcher(keywords: &[&str]) -> TextSearcher {
    let mut ts = TextSearcher::new();
    for keyword in keywords {
        ts.add_keyword(keyword.to_string(), None);
    }
    ts.create_blues();
    ts
}

fn named_searcher(keywords: &[&str], pattern: &str) -> TextSearcher {
    let mut ts = TextSearcher::new();
    for keyword in keywords {
        ts.add_keyword(keyword.to_string(), Some(pattern.replace("{}", keyword)));
    }
    ts.create_blues();
    ts
}

fn sorted_blacks(ts: &TextSearcher) -> Vec<((usize, char), usize)> {
    let mut blacks = ts.blacks.iter().map(|(k, v)| (*k, *v)).collect::<Vec<((usize, char), usize)>>();
    blacks.sort();
    blacks
}

fn sorted_blues(ts: &TextSearcher) -> Vec<(usize, usize)> {
    let mut blues = ts.blues.iter().map(|(k, v)| (*k, *v)).collect::<Vec<(usize, usize)>>();
    blues.sort();
    blues
}

fn owned(v: &[(&str, usize, usize)]) -> Vec<(String, usize, usize)> {
    v.iter().map(|(s, a, b)| (s.to_string(), *a, *b)).collect()
}

#[test]
fn textsearcher_test_new() {
    let node = KeywordNode::new("abc".chars().collect::<Vec<char>>());
    assert_eq!(node.to_string(), "[\'a\', \'b\', \'c\']/3, , false");
}

#[test]
fn test_add_keyword1() {
    let mut ts = TextSearcher::new();
    ts.add_keyword("ab".to_string(), None);

    assert_eq!(ts.nodes.len(), 3);
    assert_eq!(ts.nodes[1].to_string(), "[\'a\']/1, , false");
    assert_eq!(ts.nodes[2].to_string(), "[\'a\', \'b\']/2, ab, true");
    assert_eq!(sorted_blacks(&ts), [((1, 'a'), 2), ((2, 'b'), 3)]);
}

#[test]
fn test_add_keyword2() {
    let mut ts = TextSearcher::new();
    for keyword in &SEVEN {
        ts.add_keyword(keyword.to_string(), None);
    }

    assert_eq!(ts.nodes.len(), 11);
    assert_eq!(ts.nodes[6].to_string(), "[\'b\', \'c\']/2, bc, true");
    assert_eq!(
        sorted_blacks(&ts),
        [
            ((1, 'a'), 2),
            ((1, 'b'), 4),
            ((1, 'c'), 9),
            ((2, 'b'), 3),
            ((4, 'a'), 5),
            ((4, 'c'), 7),
            ((5, 'b'), 6),
            ((7, 'a'), 8),
            ((9, 'a'), 10),
            ((10, 'a'), 11)
        ]
    );
}

#[test]
fn test_create_blues() {
    let ts = searcher(&SEVEN);
    assert_eq!(sorted_blues(&ts), [(3, 4), (5, 2), (6, 3), (7, 9), (8, 10), (10, 2), (11, 2)]);
}

#[test]
fn test_get_node_by_keyword() {
    let mut ts = TextSearcher::new();
    let mut ids = Vec::new();
    for keyword in &SEVEN {
        ts.add_keyword(keyword.to_string(), None);
        ids.push(ts.nodes.len());
    }

    let mut i = 0;
    for keyword in &SEVEN {
        assert_eq!(ts.get_node_by_keyword(&keyword.chars().collect::<Vec<char>>()), ids[i]);
        i += 1;
    }

    assert_eq!(ts.get_node_by_keyword(&"ac".chars().collect::<Vec<char>>()), 0);
    assert_eq!(ts.get_node_by_keyword(&"xy".chars().collect::<Vec<char>>()), 0);
}

#[test]
fn test_match1() {
    let ts = searcher(&SEVEN);
    assert_eq!(
        ts.match_("abccab"),
        owned(&[("a", 0, 1), ("ab", 0, 2), ("bc", 1, 3), ("c", 2, 3), ("c", 3, 4), ("a", 4, 5), ("ab", 4, 6)])
    );
}

#[test]
fn test_match2() {
    let ts = searcher(&["北京", "欢迎", "你"]);
    assert_eq!(ts.match_("北京欢迎你"), owned(&[("北京", 0, 2), ("欢迎", 2, 4), ("你", 4, 5)]));
}

#[test]
fn test_match3() {
    let ts = named_searcher(&["bcdef", "defghi", "hijk"], "x{}y");
    assert_eq!(
        ts.match_("abcdefghijklmn"),
        owned(&[("xbcdefy", 1, 6), ("xdefghiy", 3, 9), ("xhijky", 7, 11)])
    );
}

#[test]
fn test_match_line() {
    let ts = searcher(&["abc", "def"]);
    assert_eq!(
        ts.match_line("...\n.abc.\n\n---def---\n...\nabc"),
        owned(&[(".abc.", 1, 4), ("---def---", 3, 6), ("abc", 0, 3)])
    );
}

#[test]
fn test_new() {
    let ts = TextSearcher::new();
    assert_eq!(ts.nodes.len(), 1);
    assert_eq!(ts.blacks.len(), 0);
    assert_eq!(ts.blues.len(), 0);

    assert_eq!(ts.nodes[0].to_string(), "[]/0, , false");
}

#[test]
fn textsearcher_test_serde() {
    let ts = named_searcher(&["a", "ab", "bab"], "{}!");

    let record = TextSearcherForSerde::from(&ts);
    assert_eq!(record.nodes.len(), 6);
    assert_eq!(record.blacks.len(), 5);
    assert_eq!(record.blues.len(), 3);

    let ts = match record.to() {
        Ok(ts) => ts,
        Err(_) => panic!("an export must load"),
    };
    assert_eq!(ts.nodes.len(), 6);
    assert_eq!(ts.blacks.len(), 5);
    assert_eq!(ts.blues.len(), 3);
    assert_eq!(ts.nodes[5].to_string(), "[]/3, bab!, true");
}

#[test]
fn test_subst1() {
    let ts = named_searcher(&SEVEN, "x{}y");
    assert_eq!(ts.subst("abccab"), "xabyxcyxcyxaby");
}

#[test]
fn test_subst2() {
    let ts = named_searcher(&["bcdef", "defghi", "hijk"], "x{}y");
    assert_eq!(ts.subst("abcdefghijklmn"), "axbcdefygxhijkylmn");
}

#[test]
fn test_subst3() {
    let ts = named_searcher(&["bdpk", "dpk"], "_keyword_");
    assert_eq!(ts.subst("abdpkz"), "a_keyword_z");
}

#[test]
fn single_keyword_reports_every_occurrence() {
    let ts = searcher(&["aba"]);
    assert_eq!(ts.match_("ababab"), owned(&[("aba", 0, 3), ("aba", 2, 5)]));
    let ts = searcher(&["aa"]);
    assert_eq!(ts.match_("aaaa"), owned(&[("aa", 0, 2), ("aa", 1, 3), ("aa", 2, 4)]));
    assert_eq!(ts.match_("xyz"), owned(&[]));
}

#[test]
fn failure_links_by_node() {
    let ts = searcher(&SEVEN);
    let id = |w: &str| ts.get_node_by_keyword(&w.chars().collect::<Vec<char>>());
    let blues = sorted_blues(&ts);
    let mut expected = vec![
        (id("ba"), id("a")),
        (id("bab"), id("ab")),
        (id("bc"), id("c")),
        (id("bca"), id("ca")),
        (id("ca"), id("a")),
        (id("caa"), id("a")),
    ];
    expected.sort();
    assert!(!blues.iter().any(|(from, _)| *from == id("c")));
    assert_eq!(blues.len(), expected.len() + 1);
    for pair in &expected {
        assert!(blues.contains(pair));
    }
}

#[test]
fn empty_text_and_empty_searcher() {
    let ts = searcher(&[]);
    assert_eq!(ts.match_("abc"), owned(&[]));
    assert_eq!(ts.match_line("abc\ndef"), owned(&[]));
    assert_eq!(ts.subst("abc"), "abc");
    let ts = searcher(&SEVEN);
    assert_eq!(ts.match_(""), owned(&[]));
    assert_eq!(ts.subst(""), "");
}

#[test]
fn keyword_added_twice_is_renamed() {
    let mut ts = TextSearcher::new();
    ts.add_keyword("ab".to_string(), Some("first".to_string()));
    ts.add_keyword("ab".to_string(), Some("second".to_string()));
    ts.create_blues();
    assert_eq!(ts.nodes.len(), 3);
    assert_eq!(ts.match_("ab"), owned(&[("second", 0, 2)]));
}

#[test]
fn line_mode_handles_carriage_returns() {
    let ts = searcher(&["ab", "b"]);
    assert_eq!(ts.match_line("ab\r\nxb"), owned(&[("ab", 0, 2), ("xb", 1, 2)]));
}

#[test]
fn substitution_keeps_unicode_text() {
    let ts = named_searcher(&["北京"], "<{}>");
    assert_eq!(ts.subst("在北京欢迎你"), "在<北京>欢迎你");
}

#[test]
fn round_trip_answers_alike() {
    let ts = named_searcher(&SEVEN, "x{}y");
    let back = match TextSearcherForSerde::from(&ts).to() {
        Ok(back) => back,
        Err(_) => panic!("an export must load"),
    };
    for text in ["abccab", "bcaab\ncab", "", "zzz"] {
        assert_eq!(back.match_(text), ts.match_(text));
        assert_eq!(back.match_line(text), ts.match_line(text));
        assert_eq!(back.subst(text), ts.subst(text));
    }
}

#[test]
fn malformed_records_are_refused() {
    let ts = searcher(&["ab"]);
    let mut record = TextSearcherForSerde::from(&ts);
    record.blacks.push(((1, 'a'), 3));
    assert!(matches!(record.to(), Err(SearchError::Malformed(RecordFault::Black(2)))));

    let mut record = TextSearcherForSerde::from(&ts);
    record.blues.push((2, 3));
    assert!(matches!(record.to(), Err(SearchError::Malformed(RecordFault::Blue(0)))));

    let record = TextSearcherForSerde { nodes: Vec::new(), blacks: Vec::new(), blues: Vec::new() };
    assert!(matches!(record.to(), Err(SearchError::Malformed(RecordFault::Root))));
}

#[test]
fn registry_handles_are_isolated() {
    let mut tsm = TextSearcherManager::new();
    let h1 = tsm.new_text_searcher(vec![("ab".to_string(), None)]);
    let h2 = tsm.new_text_searcher(vec![("cd".to_string(), Some("X".to_string()))]);
    assert!(h1 < h2);
    assert_eq!((h1, h2), (1, 2));

    let ts = match tsm.get_text_searcher(h1) {
        Ok(ts) => ts,
        Err(_) => panic!("handle must be valid"),
    };
    assert!(matches!(tsm.get_text_searcher(h1), Err(SearchError::InvalidHandle(1))));
    assert_eq!(ts.match_("abcd"), owned(&[("ab", 0, 2)]));
    tsm.add_text_searcher(h1, ts);

    tsm.remove_text_searcher(h1);
    assert!(matches!(tsm.get_text_searcher(h1), Err(SearchError::InvalidHandle(1))));
    let ts = match tsm.get_text_searcher(h2) {
        Ok(ts) => ts,
        Err(_) => panic!("handle must be valid"),
    };
    assert_eq!(ts.subst("abcd"), "abX");
    assert!(matches!(tsm.get_text_searcher(99), Err(SearchError::InvalidHandle(99))));
}

#[test]
fn one_off_search_and_substitution() {
    let found = text_search_match(vec!["bcdef".to_string(), "hijk".to_string()], "abcdefghijklmn");
    assert_eq!(found, owned(&[("bcdef", 1, 6), ("hijk", 7, 11)]));
    let replaced = text_search_subst(
        vec![("bcdef".to_string(), "X".to_string()), ("defghi".to_string(), "Y".to_string()), ("hijk".to_string(), "Z".to_string())],
        "abcdefghijklmn",
    );
    assert_eq!(replaced, "aXgZlmn");
}
