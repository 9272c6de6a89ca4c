//! Edge cases: odd but well-formed inputs, and inputs that must fail
//! without bringing the parser down.

use black_dwarf::error::Error;
use black_dwarf::parse;
use black_dwarf::value::Value;

fn as_int(v: &Value) -> i64 {
    match v {
        Value::Integer { value, .. } => *value,
        other => panic!("expected integer, got {:?}", other),
    }
}

#[test]
fn empty_documents_parse_to_empty_tables() {
    for doc in ["", "\n", "   ", "# note\n", "\r\n\r\n"] {
        let root = parse(doc).unwrap();
        assert!(root.is_table());
        assert_eq!(root.iter_kvs().unwrap().len(), 0);
    }
}

#[test]
fn trailing_whitespace_after_a_header() {
    let root = parse("[a]  ").unwrap();
    assert!(root.get("a").unwrap().is_table());
}

#[test]
fn quoted_keys_keep_their_quotes_in_assignments() {
    // Only table headers strip quotes from key fragments; a quoted key in
    // a plain assignment is stored verbatim.
    let root = parse("\"q\" = 1\n").unwrap();
    assert_eq!(as_int(root.get("\"q\"").unwrap()), 1);
    assert!(root.get("q").is_none());
}

#[test]
fn keywords_can_be_keys() {
    let root = parse("true = 1\nfalse = 2\n").unwrap();
    assert_eq!(as_int(root.get("true").unwrap()), 1);
    assert_eq!(as_int(root.get("false").unwrap()), 2);
}

#[test]
fn numbers_can_be_keys() {
    let root = parse("1234 = \"v\"\n").unwrap();
    assert_eq!(root.get("1234").unwrap().as_str().unwrap(), "v");
}

#[test]
fn combining_marks_stay_in_one_cluster() {
    // The letter plus its combining mark is one grapheme cluster and so
    // one identifier, not a split pair.
    let doc = "ke\u{301}y = 1\n";
    let root = parse(doc).unwrap();
    assert_eq!(as_int(root.get("ke\u{301}y").unwrap()), 1);
}

#[test]
fn based_integers_wrap_instead_of_failing() {
    let root = parse("a = 0xffffffffffffffff\n").unwrap();
    assert_eq!(as_int(root.get("a").unwrap()), -1);
    let root = parse("b = -0x8000000000000000\n").unwrap();
    assert_eq!(as_int(root.get("b").unwrap()), i64::MIN);
}

#[test]
fn based_digits_stop_at_the_first_invalid_digit() {
    // Mirrors the scanner's greedy base reader: digits after an invalid
    // one are dropped rather than rejected.
    let root = parse("a = 0b102\n").unwrap();
    assert_eq!(as_int(root.get("a").unwrap()), 2);
}

#[test]
fn huge_decimal_integers_become_floats() {
    let root = parse("a = 99999999999999999999\n").unwrap();
    match root.get("a").unwrap() {
        Value::Float { repr, .. } => {
            assert_eq!(repr.parse::<f64>().unwrap(), 1e20);
        }
        other => panic!("expected float, got {:?}", other),
    }
}

#[test]
fn inline_tables_may_span_lines() {
    let root = parse("t = {\n  a = 1,\n  b = 2,\n}\n").unwrap();
    let t = root.get("t").unwrap();
    assert_eq!(as_int(t.get("a").unwrap()), 1);
    assert_eq!(as_int(t.get("b").unwrap()), 2);
}

#[test]
fn nested_arrays() {
    let root = parse("a = [[1, 2], [3]]\n").unwrap();
    let outer = root.get("a").unwrap().as_list().unwrap();
    assert_eq!(outer.len(), 2);
    let first: Vec<i64> = outer[0].as_list().unwrap().iter().map(as_int).collect();
    assert_eq!(first, vec![1, 2]);
}

#[test]
fn array_of_tables_on_a_non_array_fails() {
    let err = parse("x = 1\n[[x]]\n").unwrap_err();
    match err {
        Error::IncorrectType { expected, .. } => assert_eq!(expected, "array"),
        other => panic!("expected incorrect type, got {:?}", other),
    }
}

#[test]
fn header_through_a_leaf_fails_on_first_use() {
    let err = parse("a = 1\n[a.b]\nc = 2\n").unwrap_err();
    assert!(matches!(err, Error::IncorrectType { .. }));
}

#[test]
fn missing_value_is_an_error() {
    for doc in ["a =\n", "a = ,\n", "a", "a = [1,\n", "t = { a }\n"] {
        assert!(parse(doc).is_err(), "should reject {:?}", doc);
    }
}

#[test]
fn stray_plus_needs_a_number() {
    for doc in ["a = +\n", "a = +true\n", "a = -\"s\"\n"] {
        let err = parse(doc).unwrap_err();
        assert!(matches!(err, Error::ParseError { .. }), "on {:?}", doc);
    }
}

#[test]
fn sixty_four_levels_of_headers_are_fine() {
    // Multi-line headers do not count against the value recursion bound.
    let mut doc = String::from("[");
    for i in 0..100 {
        if i > 0 {
            doc.push('.');
        }
        doc.push('k');
    }
    doc.push_str("]\nx = 1\n");
    assert!(parse(&doc).is_ok());
}

#[test]
fn deep_arrays_hit_the_recursion_limit() {
    let mut doc = String::from("a = ");
    for _ in 0..70 {
        doc.push('[');
    }
    doc.push('1');
    for _ in 0..70 {
        doc.push(']');
    }
    doc.push('\n');
    let err = parse(&doc).unwrap_err();
    match err {
        Error::ParseError { reason, .. } => assert_eq!(reason, "recursion limit exceeded"),
        other => panic!("expected the depth guard, got {:?}", other),
    }
}

#[test]
fn tabs_inside_strings_are_kept() {
    let root = parse("s = \"a\tb\"\n").unwrap();
    assert_eq!(root.get("s").unwrap().as_str().unwrap(), "a\tb");
}

#[test]
fn escaped_quotes_stay_inside_double_quoted_strings() {
    // The scanner skips an escaped quote; the parser keeps the raw text
    // between the quotes.
    let root = parse("s = \"a\\\"b\"\n").unwrap();
    assert_eq!(root.get("s").unwrap().as_str().unwrap(), "a\\\"b");
}

#[test]
fn single_quotes_do_not_escape() {
    // A backslash inside single quotes is an ordinary character, so the
    // next quote closes the string.
    let root = parse("s = 'a\\'\n").unwrap();
    assert_eq!(root.get("s").unwrap().as_str().unwrap(), "a\\");
}
