//! Tests for the value tree's accessors and the classification helpers.

use black_dwarf::chars::{is_digit, is_non_identifier, is_whitespace, to_digit};
use black_dwarf::parse;
use black_dwarf::token::Pos;
use black_dwarf::value::Value;

#[test]
fn type_names() {
    let root = parse(
        "t = {}\na = []\ns = \"x\"\ni = 1\nf = 1.5\nb = true\nd = 2020-01-02\n",
    )
    .unwrap();
    assert_eq!(root.get("t").unwrap().type_str(), "table");
    assert_eq!(root.get("a").unwrap().type_str(), "array");
    assert_eq!(root.get("s").unwrap().type_str(), "string");
    assert_eq!(root.get("i").unwrap().type_str(), "integer");
    assert_eq!(root.get("f").unwrap().type_str(), "float");
    assert_eq!(root.get("b").unwrap().type_str(), "boolean");
    assert_eq!(root.get("d").unwrap().type_str(), "datetime");
}

#[test]
fn shape_queries() {
    let root = parse("t = {}\na = []\ns = \"x\"\nd = 2020-01-02\n").unwrap();
    assert!(root.is_table());
    assert!(root.get("t").unwrap().is_table());
    assert!(root.get("a").unwrap().is_array());
    assert!(root.get("s").unwrap().is_str());
    assert!(root.get("d").unwrap().is_just_date());
    assert!(!root.get("s").unwrap().is_table());
    assert!(!root.is_array());
}

#[test]
fn lookups_only_work_on_tables() {
    let root = parse("a = [1]\n").unwrap();
    let arr = root.get("a").unwrap();
    assert!(arr.get("anything").is_none());
    assert!(!arr.contains_key("anything"));
    assert!(arr.iter_kvs().is_none());
    assert!(root.contains_key("a"));
    assert!(!root.contains_key("b"));
    assert!(root.as_list().is_none());
    assert!(arr.as_list().is_some());
    assert!(arr.as_str().is_none());
}

#[test]
fn positions_point_at_tokens() {
    let root = parse("a = 1\n").unwrap();
    let a = root.get("a").unwrap();
    assert_eq!(
        a.pos(),
        Pos { line: 1, col: 4, byte: 4 }
    );
}

#[test]
fn insertion_order_is_kept() {
    let root = parse("z = 1\nm = 2\na = 3\n").unwrap();
    let keys: Vec<&str> = root
        .iter_kvs()
        .unwrap()
        .iter()
        .map(|(k, _)| k.as_str())
        .collect();
    assert_eq!(keys, vec!["z", "m", "a"]);
}

#[test]
fn reassignment_keeps_the_slot() {
    let root = parse("a = 1\nb = 2\na = 9\n").unwrap();
    let kvs = root.iter_kvs().unwrap();
    assert_eq!(kvs.len(), 2);
    assert_eq!(kvs[0].0, "a");
    assert!(matches!(kvs[0].1, Value::Integer { value: 9, .. }));
    assert!(matches!(kvs[1].1, Value::Integer { value: 2, .. }));
}

#[test]
fn digit_classification() {
    assert!(is_digit("7", 10));
    assert!(!is_digit("a", 10));
    assert!(is_digit("a", 16));
    assert!(is_digit("A", 16));
    assert!(!is_digit("g", 16));
    assert!(is_digit("1", 2));
    assert!(!is_digit("2", 2));
    assert!(is_digit("7", 8));
    assert!(!is_digit("8", 8));
    assert!(!is_digit("12", 10));
    assert!(!is_digit("", 10));
}

#[test]
fn digit_values() {
    assert_eq!(to_digit("7", 10), 7);
    assert_eq!(to_digit("a", 16), 10);
    assert_eq!(to_digit("F", 16), 15);
    assert_eq!(to_digit("0", 2), 0);
}

#[test]
fn whitespace_classification() {
    assert!(is_whitespace(" "));
    assert!(is_whitespace("\t"));
    assert!(is_whitespace("\r\n"));
    assert!(is_whitespace(""));
    assert!(!is_whitespace("x"));
    assert!(!is_whitespace(" x"));
}

#[test]
fn identifier_boundaries() {
    for g in ["", " ", "#", "[", "]", "{", "}", ",", ".", "=", "\"", "'"] {
        assert!(is_non_identifier(g), "{:?} should end an identifier", g);
    }
    for g in ["a", "-", "_", "7", "\u{e9}"] {
        assert!(!is_non_identifier(g), "{:?} should not end an identifier", g);
    }
}
