use python_comm::bjtc_bs;
use python_comm::limit_pack::{ForStruct, Limit, LimitPackAble};
use python_comm::more_error::MoreError;

#[test]
fn short_strings_are_kept() {
    let limit = Limit::new(4, 4, 12);
    assert_eq!(limit.new_string("abcdefghijkl".to_string()), "abcdefghijkl");
    let limit = Limit::new(4, 4, 10);
    assert_eq!(limit.new_string("abcdefghijklmnopqrstuvwxyz".to_string()), "abcdefghijklmnopqrstuvwxyz");
}

#[test]
fn long_strings_are_cut_in_the_middle() {
    let limit = Limit::new(4, 4, 12);
    assert_eq!(limit.new_string("abcdefghijklmnopqrstuvwxyz".to_string()), "abcdef...14...uvwxyz");
}

#[test]
fn long_strings_count_bytes() {
    let limit = Limit::new(4, 4, 12);
    assert_eq!(limit.new_string("北京欢迎你".to_string()), "北京欢迎你...3...北京欢迎你");
}

#[test]
fn tuples_are_numbered() {
    let mut limit = Limit::new(4, 4, 12);
    assert_eq!(limit.new_tuple(&vec!["a".to_string(), "b".to_string()]), "(0 a,b 0)");
    assert_eq!(limit.new_tuple(&vec![]), "(1 1)");
    assert_eq!(limit.pair_seq(), 2);
}

#[test]
fn bracket_numbers_are_saved_and_restored() {
    let mut limit = Limit::new(4, 4, 12);
    limit.push_and_inc();
    assert_eq!(limit.pair_seq(), 1);
    limit.push_and_inc();
    assert_eq!(limit.pair_seq(), 2);
    let current = limit.pop_start();
    assert_eq!(current, 2);
    assert_eq!(limit.pair_seq(), 1);
    limit.pop_end(current);
    assert_eq!(limit.pair_seq(), 2);
    let copy = limit.clone(30);
    assert_eq!(copy.pair_seq(), 2);
    assert_eq!(copy.new_string("abcdefghijklmnopqrstuvwxyz".to_string()), "abcdefghijklmnopqrstuvwxyz");
    let mut empty = Limit::new(1, 1, 1);
    assert_eq!(empty.pop_start(), 0);
    assert_eq!(empty.pair_seq(), 0);
}

#[test]
fn errors_carry_their_place() {
    assert_eq!(MoreError::new("src/a.rs", 7, "load", "bad input").text(), "Error: src/a.rs:  7 load() bad input");
    assert_eq!(MoreError::new("b.rs", 1234, "f", "").text(), "Error: b.rs:1234 f() ");
}

#[test]
fn beijing_suffix_is_added() {
    assert_eq!(bjtc_bs("1970-01-02T09:00:00"), "1970-01-02T09:00:00+08:00");
}

#[test]
fn lists_are_cut_in_the_middle() {
    let data: Vec<usize> = (0..10).collect();
    assert_eq!(data.to_limit_str3(4, 4, 20), "[0 0,1,...6...8,9 0]");
    assert_eq!(data.to_limit_str3(10, 4, 20), "[0 0,1,2,3,4,5,6,7,8,9 0]");
    let empty: Vec<usize> = Vec::new();
    assert_eq!(empty.to_limit_str3(4, 4, 20), "[0 0]");
    let nested: Vec<Vec<usize>> = vec![vec![1, 2], vec![3]];
    assert_eq!(nested.to_limit_str3(4, 4, 20), "[0 [1 1,2 1],[2 3 2] 0]");
}

#[test]
fn maps_tuples_and_fields() {
    let mut limit = Limit::new(4, 2, 20);
    let data = vec![("a".to_string(), 1usize), ("b".to_string(), 2), ("c".to_string(), 3)];
    assert_eq!(limit.new_dict(&data), "{0 a:1,...1...c:3 0}");
    let pair = ("x".to_string(), true);
    assert_eq!(pair.to_limit_str3(4, 4, 20), "(0 x,true 0)");
    let field = ForStruct { k: "name".to_string(), v: Some(7usize) };
    assert_eq!(field.to_limit_str3(4, 4, 20), "name:7");
    let none: Option<usize> = None;
    assert_eq!(none.to_limit_str3(4, 4, 20), "None");
}
