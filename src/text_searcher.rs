//! Multi-keyword search and substitution over an Aho–Corasick trie.
use vstd::prelude::*;
use vstd::slice::slice_to_vec;

use crate::maps::{
    black_arrows, black_get, black_insert, blue_arrows, blue_get, blue_insert, new_black_table,
    new_blue_table, BlackTable, BlueTable,
};
use crate::model::{absorb, empty_searcher, locate, split_lines, suffix_node, Event, NodeView, SearcherView};
use crate::text::{chars_of, copy_letters, debug_letters, decimal, decimal_text, letters_debug, push_char};

verus! {

/// A trie node: one prefix of some keyword.
pub struct KeywordNode {
    /// The characters of the prefix; dropped once the blue arrows are made.
    pub letters: Vec<char>,
    /// The number of characters of the prefix.
    pub length: usize,
    /// The output name, on nodes that end a keyword.
    pub name: String,
    /// Whether the prefix is a whole keyword.
    pub is_blue: bool,
}

impl View for KeywordNode {
    type V = NodeView;

    open spec fn view(&self) -> NodeView {
        NodeView {
            letters: self.letters@,
            length: self.length as nat,
            name: self.name@,
            is_blue: self.is_blue,
        }
    }
}

impl KeywordNode {
    /// The output name.
    pub fn name(&self) -> (r: String)
        ensures
            r@ == self.name@,
    {
        self.name.clone()
    }

    /// A readable form: `['a', 'b']/2, name, true`.
    pub fn to_string(&self) -> (r: String)
        ensures
            r@ == letters_debug(self.letters@) + "/"@ + decimal(self.length as nat) + ", "@ + self.name@ + ", "@
                + (if self.is_blue { "true"@ } else { "false"@ }),
    {
        let mut s = debug_letters(&self.letters);
        s.append("/");
        let number = decimal_text(self.length);
        s.append(number.as_str());
        s.append(", ");
        s.append(self.name.as_str());
        s.append(", ");
        if self.is_blue {
            s.append("true");
        } else {
            s.append("false");
        }
        s
    }

    /// A node for the prefix `letters`, not yet a keyword.
    pub fn new(letters: Vec<char>) -> (r: Self)
        ensures
            r@ == (NodeView { letters: letters@, length: letters@.len(), name: seq![], is_blue: false }),
    {
        let length = letters.len();
        KeywordNode { letters, length, name: String::new(), is_blue: false }
    }
}

/// Projects match results onto their model.
pub open spec fn events_of(v: Seq<(String, usize, usize)>) -> Seq<Event> {
    v.map_values(|t: (String, usize, usize)| (t.0@, t.1 as int, t.2 as int))
}

/// A keyword searcher: keywords are added, the blue arrows made once, and the
/// searcher then answers queries.
pub struct TextSearcher {
    pub nodes: Vec<KeywordNode>,
    pub blacks: BlackTable,
    pub blues: BlueTable,
}

impl View for TextSearcher {
    type V = SearcherView;

    open spec fn view(&self) -> SearcherView {
        SearcherView {
            nodes: self.nodes@.map_values(|n: KeywordNode| n@),
            blacks: black_arrows(self.blacks),
            blues: blue_arrows(self.blues),
        }
    }
}

impl TextSearcher {
    /// A searcher with the root alone.
    pub fn new() -> (r: Self)
        ensures
            r@ == empty_searcher(),
            r@.wf(),
            r@.letters_kept(),
    {
        let root = KeywordNode::new(Vec::new());
        let mut nodes = Vec::new();
        nodes.push(root);
        let r = TextSearcher { nodes, blacks: new_black_table(), blues: new_blue_table() };
        assert(r@.nodes =~= seq![NodeView { letters: seq![], length: 0, name: seq![], is_blue: false }]);
        assert(r@.blacks =~= Map::empty());
        assert(r@.blues =~= Map::empty());
        r
    }

    /// Adds a keyword: walks the black arrows from the root, creating the missing
    /// nodes and arrows, and marks the last node as a keyword with output `name`
    /// (the keyword itself when no name is given). Adding a keyword again only
    /// renames it.
    pub fn add_keyword(&mut self, keyword: String, name: Option<String>)
        requires
            old(self)@.wf(),
            old(self)@.letters_kept(),
            old(self)@.nodes.len() + keyword@.len() < usize::MAX,
        ensures
            final(self)@ == old(self)@.inserted(
                keyword@,
                match name {
                    Some(n) => n@,
                    None => keyword@,
                },
            ),
            final(self)@.wf(),
            final(self)@.letters_kept(),
            final(self)@.nodes.len() <= old(self)@.nodes.len() + keyword@.len(),
    {
        let kw = chars_of(keyword.as_str());
        let ghost start = self@;
        let mut node_id: usize = 1;
        let mut letters: Vec<char> = Vec::new();
        let mut i: usize = 0;
        while i < kw.len()
            invariant
                kw@ == keyword@,
                i <= kw@.len(),
                letters@ == kw@.take(i as int),
                start.nodes.len() + keyword@.len() < usize::MAX,
                self@.nodes.len() <= start.nodes.len() + i,
                self@.wf(),
                self@.letters_kept(),
                self@.valid(node_id),
                self@.len_of(node_id) == i,
                start.grow(kw@, 0, 1) == self@.grow(kw@, i as nat, node_id),
            decreases kw@.len() - i,
        {
            let letter = kw[i];
            letters.push(letter);
            assert(letters@ =~= kw@.take(i + 1));
            match black_get(&self.blacks, node_id, letter) {
                Some(next) => {
                    node_id = next;
                },
                None => {
                    let ghost before = self@;
                    self.nodes.push(KeywordNode::new(slice_to_vec(letters.as_slice())));
                    let next = self.nodes.len();
                    black_insert(&mut self.blacks, node_id, letter, next);
                    proof {
                        let node = NodeView { letters: kw@.take(i + 1), length: (i + 1) as nat, name: seq![], is_blue: false };
                        assert(self@.nodes =~= before.nodes.push(node));
                        assert(self@ == SearcherView {
                            nodes: before.nodes.push(node),
                            blacks: before.blacks.insert((node_id, kw@[i as int]), next),
                            blues: before.blues,
                        });
                        assert forall|k: (usize, char)| #[trigger] self@.blacks.contains_key(k) implies {
                            &&& self@.valid(k.0)
                            &&& self@.valid(self@.blacks[k])
                            &&& self@.len_of(self@.blacks[k]) == self@.len_of(k.0) + 1
                        } by {
                            if k != (node_id, letter) {
                                assert(before.blacks.contains_key(k));
                            }
                        }
                        assert forall|u: usize| #[trigger] self@.blues.contains_key(u) implies {
                            &&& self@.valid(u)
                            &&& self@.valid(self@.blues[u])
                            &&& self@.len_of(self@.blues[u]) < self@.len_of(u)
                        } by {
                            assert(before.blues.contains_key(u));
                        }
                    }
                    node_id = next;
                },
            }
            i += 1;
        }
        let ghost grown = self@;
        let idx = node_id - 1;
        let ghost target = self@.nodes[idx as int];
        let label = match name {
            Some(n) => n,
            None => keyword,
        };
        self.nodes[idx].is_blue = true;
        self.nodes[idx].name = label;
        proof {
            assert(self@.nodes =~= grown.nodes.update(idx as int, NodeView { name: label@, is_blue: true, ..target }));
            assert forall|k: (usize, char)| #[trigger] self@.blacks.contains_key(k) implies {
                &&& self@.valid(k.0)
                &&& self@.valid(self@.blacks[k])
                &&& self@.len_of(self@.blacks[k]) == self@.len_of(k.0) + 1
            } by {
                assert(grown.blacks.contains_key(k));
            }
            assert forall|u: usize| #[trigger] self@.blues.contains_key(u) implies {
                &&& self@.valid(u)
                &&& self@.valid(self@.blues[u])
                &&& self@.len_of(self@.blues[u]) < self@.len_of(u)
            } by {
                assert(grown.blues.contains_key(u));
            }
            assert forall|j: int| 0 <= j < self@.nodes.len() implies #[trigger] self@.nodes[j].letters.len()
                == self@.nodes[j].length by {
                assert(grown.nodes[j].letters.len() == grown.nodes[j].length);
            }
        }
    }

    /// Makes the blue arrows once every keyword is in: each node points to the node
    /// of its longest proper suffix that is a trie path, if any. The letters of the
    /// nodes are dropped; their lengths stay.
    pub fn create_blues(&mut self)
        requires
            old(self)@.wf(),
            old(self)@.letters_kept(),
        ensures
            final(self)@ == old(self)@.linked(),
            final(self)@.wf(),
    {
        let ghost start = self@;
        let n = self.nodes.len();
        let mut idx: usize = 0;
        while idx < n
            invariant
                start.wf(),
                start.letters_kept(),
                n == start.nodes.len(),
                idx <= n,
                self@.nodes.len() == n,
                self@.blacks == start.blacks,
                forall|i: int| 0 <= i < idx ==> #[trigger] self@.nodes[i] == (NodeView {
                    letters: seq![],
                    ..start.nodes[i]
                }),
                forall|i: int| idx <= i < n ==> #[trigger] self@.nodes[i] == start.nodes[i],
                forall|u: usize| #[trigger] self@.blues.contains_key(u) <==> (start.blues.contains_key(u) || (1
                    <= u <= idx && start.link(u) != 0)),
                forall|u: usize| #[trigger] self@.blues.contains_key(u) ==> self@.blues[u] == (if 1 <= u
                    <= idx && start.link(u) != 0 {
                    start.link(u)
                } else {
                    start.blues[u]
                }),
                self@.wf(),
            decreases n - idx,
        {
            let node_id = idx + 1;
            let ghost before = self@;
            let mut letters: Vec<char> = Vec::new();
            std::mem::swap(&mut letters, &mut self.nodes[node_id - 1].letters);
            let ghost w = letters@;
            proof {
                assert(w == start.nodes[node_id - 1].letters);
                assert(self@.nodes =~= before.nodes.update(node_id - 1, NodeView { letters: seq![], ..before.nodes[node_id - 1] }));
                lemma_wf_same_lengths(before, self@);
            }
            let mut s: usize = 1;
            let mut target: usize = 0;
            while s < letters.len() && target == 0
                invariant
                    self@.wf(),
                    self@.blacks == start.blacks,
                    letters@ == w,
                    1 <= s,
                    s <= w.len() || s == 1,
                    target == 0 ==> suffix_node(start.blacks, w, 1) == suffix_node(start.blacks, w, s as int),
                    target != 0 ==> target == suffix_node(start.blacks, w, 1),
                decreases w.len() - s,
            {
                target = self.locate_from(letters.as_slice(), s);
                s += 1;
            }
            proof {
                assert(target == start.link(node_id));
                if target != 0 {
                    lemma_suffix_node_len(start, w, 1);
                }
            }
            let ghost pre = self@;
            if target != 0 {
                let ghost mid = self@;
                blue_insert(&mut self.blues, node_id, target);
                proof {
                    assert forall|u: usize| #[trigger] self@.blues.contains_key(u) implies {
                        &&& self@.valid(u)
                        &&& self@.valid(self@.blues[u])
                        &&& self@.len_of(self@.blues[u]) < self@.len_of(u)
                    } by {
                        if u != node_id {
                            assert(mid.blues.contains_key(u));
                        }
                    }
                }
            }
            proof {
                assert forall|u: usize| #[trigger] self@.blues.contains_key(u) <==> (start.blues.contains_key(u)
                    || (1 <= u <= idx + 1 && start.link(u) != 0)) by {
                    assert(pre.blues == before.blues);
                    if u != node_id {
                        assert(self@.blues.contains_key(u) == pre.blues.contains_key(u));
                        assert(before.blues.contains_key(u) == (start.blues.contains_key(u) || (1 <= u <= idx
                            && start.link(u) != 0)));
                    } else {
                        assert(before.blues.contains_key(u) == start.blues.contains_key(u));
                        assert(target == start.link(u));
                    }
                }
                assert forall|u: usize| #[trigger] self@.blues.contains_key(u) implies self@.blues[u] == (if 1
                    <= u <= idx + 1 && start.link(u) != 0 {
                    start.link(u)
                } else {
                    start.blues[u]
                }) by {
                    assert(pre.blues == before.blues);
                    if u != node_id {
                        assert(pre.blues.contains_key(u));
                        assert(before.blues[u] == (if 1 <= u <= idx && start.link(u) != 0 {
                            start.link(u)
                        } else {
                            start.blues[u]
                        }));
                    } else {
                        assert(target == start.link(u));
                        if target == 0 {
                            assert(before.blues.contains_key(u) == start.blues.contains_key(u));
                            assert(before.blues[u] == start.blues[u]);
                        }
                    }
                }
            }
            idx += 1;
        }
        proof {
            let l = start.linked();
            assert(self@.nodes =~= l.nodes);
            assert(self@.blues =~= l.blues);
        }
    }

    /// The node reached from the root along `letters[start..]`, or 0.
    fn locate_from(&self, letters: &[char], start: usize) -> (r: usize)
        requires
            self@.wf(),
            start <= letters@.len(),
        ensures
            r == locate(self@.blacks, letters@.subrange(start as int, letters@.len() as int)),
    {
        let ghost w = letters@.subrange(start as int, letters@.len() as int);
        let mut node_id: usize = 1;
        let mut i: usize = start;
        while i < letters.len()
            invariant
                self@.wf(),
                start <= i <= letters@.len(),
                w == letters@.subrange(start as int, letters@.len() as int),
                node_id != 0,
                node_id == locate(self@.blacks, w.take(i - start)),
            decreases letters@.len() - i,
        {
            assert(w.take(i - start + 1).drop_last() =~= w.take(i - start));
            match black_get(&self.blacks, node_id, letters[i]) {
                Some(next) => {
                    node_id = next;
                },
                None => {
                    proof {
                        lemma_locate_dead(self@.blacks, w, (i - start + 1) as int);
                    }
                    assert(w.take(w.len() as int) =~= w);
                    return 0;
                },
            }
            i += 1;
        }
        assert(w.take(i - start) =~= w);
        node_id
    }

    /// The node reached from the root along `keyword`, or 0 when it is no trie path.
    pub fn get_node_by_keyword(&self, keyword: &[char]) -> (r: usize)
        requires
            self@.wf(),
        ensures
            r == locate(self@.blacks, keyword@),
    {
        let r = self.locate_from(keyword, 0);
        assert(keyword@.subrange(0, keyword@.len() as int) =~= keyword@);
        r
    }

    /// Steps on `letter`, the character at position `posy`, from `node_id` until it
    /// is consumed: the node reached and the matches emitted on the way.
    fn feed_letter(&self, node_id: usize, letter: char, posy: usize) -> (r: (usize, Vec<(String, usize, usize)>))
        requires
            self@.wf(),
            self@.valid(node_id),
            1 <= posy,
            self@.len_of(node_id) <= posy - 1,
        ensures
            (r.0, events_of(r.1@)) == self@.feed(node_id, letter, posy as int),
            self@.valid(r.0),
            self@.len_of(r.0) <= posy,
            forall|k: int| 0 <= k < r.1@.len() ==> (#[trigger] r.1@[k]).1 <= r.1@[k].2 <= posy,
    {
        let mut names: Vec<(String, usize, usize)> = Vec::new();
        let mut cur = node_id;
        let ghost mut acc: Seq<Event> = seq![];
        let mut done = false;
        while !done
            invariant
                self@.wf(),
                self@.valid(node_id),
                self@.valid(cur),
                posy >= 1,
                !done ==> self@.len_of(cur) <= posy - 1,
                done ==> self@.len_of(cur) <= posy,
                !done ==> self@.feed(node_id, letter, posy as int) == (
                    self@.feed(cur, letter, posy as int).0,
                    acc + self@.feed(cur, letter, posy as int).1,
                ),
                done ==> self@.feed(node_id, letter, posy as int) == (cur, acc),
                events_of(names@) == acc,
                forall|k: int| 0 <= k < names@.len() ==> (#[trigger] names@[k]).1 <= names@[k].2 <= posy,
            decreases (if done { 0 } else { self@.rank(cur) + 1 }),
        {
            let ghost prev = cur;
            let (next, used) = self.move_front(cur, letter);
            cur = next;
            let node = &self.nodes[cur - 1];
            let ghost ev: Seq<Event> = seq![];
            let ghost names0 = names@;
            if node.is_blue {
                if used {
                    names.push((node.name(), posy - node.length, posy));
                    proof { ev = seq![(node.name@, posy - node.length, posy as int)]; }
                } else {
                    names.push((node.name(), posy - node.length - 1, posy - 1));
                    proof { ev = seq![(node.name@, posy - 1 - node.length, posy - 1)]; }
                }
            }
            proof {
                let old_acc = acc;
                acc = acc + ev;
                if node.is_blue {
                    assert(names@ == names0.push(names@.last()));
                    assert(events_of(names@) =~= events_of(names0).push(ev[0]));
                } else {
                    assert(names@ == names0);
                }
                assert(events_of(names@) =~= acc);
                let f = self@.feed(cur, letter, posy as int);
                if !used {
                    assert(self@.feed(prev, letter, posy as int) == (f.0, ev + f.1));
                    assert(old_acc + (ev + f.1) =~= acc + f.1);
                } else {
                    assert(self@.feed(prev, letter, posy as int) == (cur, ev));
                }
            }
            if used {
                done = true;
            }
        }
        (cur, names)
    }

    /// Whole-text matching: every terminal node reached, as `(name, start, end)` in
    /// character positions; overlapping matches are all reported.
    pub fn match_(&self, text: &str) -> (r: Vec<(String, usize, usize)>)
        requires
            self@.wf(),
        ensures
            events_of(r@) == self@.matches(text@),
    {
        let letters = chars_of(text);
        let mut names: Vec<(String, usize, usize)> = Vec::new();
        let mut node_id: usize = 1;
        let mut posy: usize = 0;
        while posy < letters.len()
            invariant
                self@.wf(),
                letters@ == text@,
                posy <= letters@.len(),
                self@.valid(node_id),
                self@.len_of(node_id) <= posy,
                self@.scan(text@.take(posy as int)) == (node_id, events_of(names@)),
            decreases letters@.len() - posy,
        {
            let letter = letters[posy];
            posy += 1;
            let (next, mut found) = self.feed_letter(node_id, letter, posy);
            let ghost names0 = names@;
            let ghost found0 = found@;
            names.append(&mut found);
            proof {
                assert(names@ == names0 + found0);
                assert(events_of(names@) =~= events_of(names0) + events_of(found0));
                let t = text@.take(posy as int);
                assert(t.drop_last() =~= text@.take(posy - 1));
            }
            node_id = next;
        }
        assert(text@.take(posy as int) =~= text@);
        names
    }

    /// Line matching: each line (ended by `\r` or `\n`) is matched on its own, from
    /// position 0; for each line with a match, the line and the span of its last match.
    pub fn match_line(&self, text: &str) -> (r: Vec<(String, usize, usize)>)
        requires
            self@.wf(),
        ensures
            events_of(r@) == self@.line_matches(text@),
    {
        let letters = chars_of(text);
        let mut names: Vec<(String, usize, usize)> = Vec::new();
        let mut name = String::new();
        let mut found: (bool, usize, usize) = (false, 0, 0);
        let mut node_id: usize = 1;
        let mut posy: usize = 0;
        let mut i: usize = 0;
        let ghost mut done_lines: Seq<Seq<char>> = seq![];
        while i < letters.len()
            invariant
                self@.wf(),
                letters@ == text@,
                i <= letters@.len(),
                split_lines(text@.take(i as int)) == (done_lines, name@),
                events_of(names@) == self@.line_reports(done_lines),
                posy == name@.len(),
                posy <= i,
                self@.valid(node_id),
                self@.len_of(node_id) <= posy,
                self@.scan(name@).0 == node_id,
                found.0 == (self@.scan(name@).1.len() > 0),
                found.0 ==> found.1 as int == self@.scan(name@).1.last().1
                    && found.2 as int == self@.scan(name@).1.last().2,
            decreases letters@.len() - i,
        {
            let letter = letters[i];
            proof {
                let t = text@.take(i + 1);
                assert(t.drop_last() =~= text@.take(i as int));
            }
            if letter == '\r' || letter == '\n' {
                let ghost line = name@;
                let ghost names0 = names@;
                if found.0 {
                    names.push((name, found.1, found.2));
                    proof {
                        assert(events_of(names@) =~= events_of(names0) + self@.line_report(line));
                    }
                } else {
                    assert(self@.line_report(line) =~= seq![]);
                    assert(events_of(names@) =~= events_of(names0) + self@.line_report(line));
                }
                proof {
                    assert(done_lines.push(line).drop_last() =~= done_lines);
                    done_lines = done_lines.push(line);
                }
                name = String::new();
                found = (false, 0, 0);
                node_id = 1;
                posy = 0;
            } else {
                let ghost line0 = name@;
                push_char(&mut name, letter);
                posy += 1;
                let (next, emitted) = self.feed_letter(node_id, letter, posy);
                proof {
                    assert(name@.drop_last() =~= line0);
                    assert(self@.scan(name@).1 == self@.scan(line0).1 + events_of(emitted@));
                }
                if emitted.len() > 0 {
                    let last = &emitted[emitted.len() - 1];
                    found = (true, last.1, last.2);
                    proof {
                        let all = self@.scan(name@).1;
                        assert(all.last() == events_of(emitted@).last());
                    }
                } else {
                    proof {
                        assert(self@.scan(name@).1 =~= self@.scan(line0).1);
                    }
                }
                node_id = next;
            }
            i += 1;
        }
        let ghost names0 = names@;
        if found.0 {
            names.push((name, found.1, found.2));
            proof {
                assert(events_of(names@) =~= events_of(names0) + self@.line_report(name@));
            }
        }
        proof {
            assert(text@.take(i as int) =~= text@);
            if !found.0 {
                assert(self@.line_report(name@) =~= seq![]);
                assert(events_of(names@) =~= events_of(names0) + self@.line_report(name@));
            }
        }
        names
    }

    /// Substitution: each kept match is replaced by its output name and the rest of
    /// the text is copied; of two overlapping matches the earlier one is kept.
    pub fn subst(&self, text: &str) -> (r: String)
        requires
            self@.wf(),
        ensures
            r@ == self@.substituted(text@),
    {
        let letters = chars_of(text);
        let mut out = String::new();
        let mut cursor: usize = 0;
        let mut last_name = String::new();
        let mut last_start: usize = 0;
        let mut last_end: usize = 0;
        let mut node_id: usize = 1;
        let mut posy: usize = 0;
        proof {
            assert(text@.take(0) =~= seq![]);
        }
        while posy < letters.len()
            invariant
                self@.wf(),
                letters@ == text@,
                posy <= letters@.len(),
                self@.valid(node_id),
                self@.len_of(node_id) <= posy,
                self@.scan(text@.take(posy as int)).0 == node_id,
                absorb(text@, self@.scan(text@.take(posy as int)).1) == (
                    out@,
                    cursor as int,
                    (last_name@, last_start as int, last_end as int),
                ),
                cursor <= letters@.len(),
                last_start <= last_end <= posy,
            decreases letters@.len() - posy,
        {
            let letter = letters[posy];
            let ghost evs0 = self@.scan(text@.take(posy as int)).1;
            posy += 1;
            let (next, emitted) = self.feed_letter(node_id, letter, posy);
            let ghost evs = events_of(emitted@);
            let mut k: usize = 0;
            while k < emitted.len()
                invariant
                    letters@ == text@,
                    posy <= letters@.len(),
                    evs == events_of(emitted@),
                    k <= emitted@.len(),
                    forall|j: int| 0 <= j < emitted@.len() ==> (#[trigger] emitted@[j]).1 <= emitted@[j].2 <= posy,
                    absorb(text@, evs0 + evs.take(k as int)) == (
                        out@,
                        cursor as int,
                        (last_name@, last_start as int, last_end as int),
                    ),
                    cursor <= letters@.len(),
                    last_start <= last_end <= posy,
                decreases emitted@.len() - k,
            {
                let e = &emitted[k];
                proof {
                    let s1 = evs0 + evs.take(k + 1);
                    assert(s1.drop_last() =~= evs0 + evs.take(k as int));
                    assert(s1.last() == evs[k as int]);
                }
                if e.1 != last_start {
                    if last_start >= cursor {
                        copy_letters(&mut out, &letters, cursor, last_start);
                        out.append(last_name.as_str());
                        cursor = last_end;
                    }
                }
                last_name = e.0.clone();
                last_start = e.1;
                last_end = e.2;
                k += 1;
            }
            proof {
                let t = text@.take(posy as int);
                assert(t.drop_last() =~= text@.take(posy - 1));
                assert(evs.take(evs.len() as int) =~= evs);
            }
            node_id = next;
        }
        assert(text@.take(posy as int) =~= text@);
        if last_end >= last_start && last_start >= cursor {
            copy_letters(&mut out, &letters, cursor, last_start);
            out.append(last_name.as_str());
            cursor = last_end;
        }
        copy_letters(&mut out, &letters, cursor, letters.len());
        out
    }

    /// One matcher step from `node_id` on `letter`.
    fn move_front(&self, node_id: usize, letter: char) -> (r: (usize, bool))
        ensures
            r == self@.step(node_id, letter),
    {
        match black_get(&self.blacks, node_id, letter) {
            Some(next) => (next, true),
            None => match blue_get(&self.blues, node_id) {
                Some(next) => (next, false),
                None => (1, node_id == 1),
            },
        }
    }
}

/// Changing the letters of nodes keeps the structure well formed.
proof fn lemma_wf_same_lengths(a: SearcherView, b: SearcherView)
    requires
        a.wf(),
        a.blacks == b.blacks,
        a.blues == b.blues,
        a.nodes.len() == b.nodes.len(),
        forall|i: int| 0 <= i < a.nodes.len() ==> #[trigger] b.nodes[i].length == a.nodes[i].length,
    ensures
        b.wf(),
{
    assert forall|k: (usize, char)| #[trigger] b.blacks.contains_key(k) implies {
        &&& b.valid(k.0)
        &&& b.valid(b.blacks[k])
        &&& b.len_of(b.blacks[k]) == b.len_of(k.0) + 1
    } by {
        assert(a.blacks.contains_key(k));
        assert(b.nodes[b.blacks[k] - 1].length == a.nodes[a.blacks[k] - 1].length);
        assert(b.nodes[k.0 - 1].length == a.nodes[k.0 - 1].length);
    }
    assert forall|u: usize| #[trigger] b.blues.contains_key(u) implies {
        &&& b.valid(u)
        &&& b.valid(b.blues[u])
        &&& b.len_of(b.blues[u]) < b.len_of(u)
    } by {
        assert(a.blues.contains_key(u));
        assert(b.nodes[b.blues[u] - 1].length == a.nodes[a.blues[u] - 1].length);
        assert(b.nodes[u - 1].length == a.nodes[u - 1].length);
    }
    assert(b.nodes[0].length == a.nodes[0].length);
}

/// A node reached from the root is a node, as long as the path walked.
proof fn lemma_locate_len(v: SearcherView, x: Seq<char>)
    requires
        v.wf(),
        locate(v.blacks, x) != 0,
    ensures
        v.valid(locate(v.blacks, x)),
        v.len_of(locate(v.blacks, x)) == x.len(),
    decreases x.len(),
{
    if x.len() > 0 {
        lemma_locate_len(v, x.drop_last());
    }
}

/// A suffix node found from `s` on is a node at most `w.len() - s` long.
proof fn lemma_suffix_node_len(v: SearcherView, w: Seq<char>, s: int)
    requires
        v.wf(),
        suffix_node(v.blacks, w, s) != 0,
    ensures
        v.valid(suffix_node(v.blacks, w, s)),
        v.len_of(suffix_node(v.blacks, w, s)) <= w.len() - s,
    decreases w.len() - s,
{
    if locate(v.blacks, w.subrange(s, w.len() as int)) != 0 {
        lemma_locate_len(v, w.subrange(s, w.len() as int));
    } else {
        lemma_suffix_node_len(v, w, s + 1);
    }
}

/// Once the walk along `w` has failed at some prefix, it fails on every longer one.
proof fn lemma_locate_dead(blacks: crate::maps::BlackMap, w: Seq<char>, i: int)
    requires
        0 <= i <= w.len(),
        locate(blacks, w.take(i)) == 0,
    ensures
        locate(blacks, w) == 0,
    decreases w.len() - i,
{
    if i < w.len() {
        assert(w.take(i + 1).drop_last() =~= w.take(i));
        lemma_locate_dead(blacks, w, i + 1);
    } else {
        assert(w.take(i) =~= w);
    }
}

} // verus!
