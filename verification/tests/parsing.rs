//! Scenario tests for the parser: concrete documents and the trees they
//! must produce.

use black_dwarf::date::Offset;
use black_dwarf::error::Error;
use black_dwarf::parse;
use black_dwarf::scan;
use black_dwarf::token::ScanError;
use black_dwarf::value::Value;

fn get<'a>(v: &'a Value, key: &str) -> &'a Value {
    v.get(key).expect("key should be present")
}

fn as_int(v: &Value) -> i64 {
    match v {
        Value::Integer { value, .. } => *value,
        other => panic!("expected integer, got {:?}", other),
    }
}

fn as_float(v: &Value) -> f64 {
    match v {
        Value::Float { repr, .. } => repr.parse::<f64>().expect("float repr should parse"),
        other => panic!("expected float, got {:?}", other),
    }
}

fn as_bool(v: &Value) -> bool {
    match v {
        Value::Boolean { value, .. } => *value,
        other => panic!("expected boolean, got {:?}", other),
    }
}

fn keys_of(v: &Value) -> Vec<String> {
    v.iter_kvs()
        .expect("expected a table")
        .iter()
        .map(|(k, _)| k.clone())
        .collect()
}

#[test]
fn integer_and_float_mix() {
    let root = parse("a = 1\nb = 1.5\nc = 0xff\nd = 1_000\n").unwrap();
    assert!(root.is_table());
    assert_eq!(keys_of(&root), vec!["a", "b", "c", "d"]);
    assert_eq!(as_int(get(&root, "a")), 1);
    assert_eq!(as_float(get(&root, "b")), 1.5);
    assert_eq!(as_int(get(&root, "c")), 255);
    assert_eq!(as_int(get(&root, "d")), 1000);
}

#[test]
fn dotted_key() {
    let root = parse("x.y.z = true\n").unwrap();
    let x = get(&root, "x");
    assert!(x.is_table());
    assert_eq!(x.iter_kvs().unwrap().len(), 1);
    let y = get(x, "y");
    assert!(y.is_table());
    assert_eq!(y.iter_kvs().unwrap().len(), 1);
    let z = get(y, "z");
    assert!(as_bool(z));
}

#[test]
fn array_of_tables() {
    let root = parse("[[pkg]]\nname = \"a\"\n[[pkg]]\nname = \"b\"\n").unwrap();
    let pkg = get(&root, "pkg");
    assert!(pkg.is_array());
    let elems = pkg.as_list().unwrap();
    assert_eq!(elems.len(), 2);
    assert!(elems[0].is_table());
    assert!(elems[1].is_table());
    assert_eq!(get(&elems[0], "name").as_str().unwrap(), "a");
    assert_eq!(get(&elems[1], "name").as_str().unwrap(), "b");
}

fn table_shape(v: &Value) -> Vec<(String, i64)> {
    v.iter_kvs()
        .expect("expected a table")
        .iter()
        .map(|(k, v)| (k.clone(), as_int(v)))
        .collect()
}

#[test]
fn trailing_comma_inline_table() {
    let with = parse("t = { a = 1, b = 2, }\n").unwrap();
    let without = parse("t = { a = 1, b = 2 }\n").unwrap();
    let tw = table_shape(get(&with, "t"));
    let to = table_shape(get(&without, "t"));
    assert_eq!(tw, vec![("a".to_string(), 1), ("b".to_string(), 2)]);
    assert_eq!(tw, to);
}

#[test]
fn trailing_comma_array() {
    let with = parse("a = [1, 2, 3,]\n").unwrap();
    let without = parse("a = [1, 2, 3]\n").unwrap();
    let aw: Vec<i64> = get(&with, "a").as_list().unwrap().iter().map(as_int).collect();
    let ao: Vec<i64> = get(&without, "a").as_list().unwrap().iter().map(as_int).collect();
    assert_eq!(aw, vec![1, 2, 3]);
    assert_eq!(aw, ao);
}

#[test]
fn datetime_offset() {
    let root = parse("ts = 1979-05-27T07:32:00Z\n").unwrap();
    match get(&root, "ts") {
        Value::Datetime { datetime, .. } => {
            let date = datetime.date.expect("date part");
            let time = datetime.time.expect("time part");
            assert_eq!((date.year, date.month, date.day), (1979, 5, 27));
            assert_eq!(
                (time.hour, time.minute, time.second, time.nanosecond),
                (7, 32, 0, 0)
            );
            assert_eq!(datetime.offset, Some(Offset::Z));
        }
        other => panic!("expected datetime, got {:?}", other),
    }
}

#[test]
fn date_then_time_stitched() {
    let root = parse("ts = 1979-05-27 07:32:00Z\n").unwrap();
    match get(&root, "ts") {
        Value::Datetime { datetime, .. } => {
            let date = datetime.date.expect("date part");
            let time = datetime.time.expect("time part");
            assert_eq!((date.year, date.month, date.day), (1979, 5, 27));
            assert_eq!((time.hour, time.minute, time.second), (7, 32, 0));
            assert_eq!(datetime.offset, Some(Offset::Z));
        }
        other => panic!("expected datetime, got {:?}", other),
    }
}

#[test]
fn bare_time_value() {
    let root = parse("t = 07:32:01.5\n").unwrap();
    match get(&root, "t") {
        Value::Datetime { datetime, .. } => {
            assert!(datetime.date.is_none());
            let time = datetime.time.expect("time part");
            assert_eq!((time.hour, time.minute, time.second), (7, 32, 1));
            assert_eq!(time.nanosecond, 500_000_000);
            assert_eq!(datetime.offset, None);
        }
        other => panic!("expected time, got {:?}", other),
    }
}

#[test]
fn unterminated_string() {
    let err = parse("s = \"oops\n").unwrap_err();
    match err {
        Error::Scan { error, position } => {
            assert_eq!(error, ScanError::UnterminatedString);
            assert_eq!(position.byte, 4);
        }
        other => panic!("expected scan error, got {:?}", other),
    }
}

#[test]
fn two_quotes_are_an_error() {
    let err = parse("s = \"\"\n").unwrap_err();
    match err {
        Error::Scan { error, .. } => assert_eq!(error, ScanError::IncorrectQuoteNumber),
        other => panic!("expected scan error, got {:?}", other),
    }
}

#[test]
fn invalid_number() {
    let err = parse("n = 1e\n").unwrap_err();
    match err {
        Error::Scan { error, .. } => assert_eq!(error, ScanError::InvalidNumber),
        other => panic!("expected scan error, got {:?}", other),
    }
}

#[test]
fn recursion_limit() {
    let mut doc = String::from("a = ");
    for _ in 0..65 {
        doc.push_str("{ a = ");
    }
    doc.push_str("1");
    for _ in 0..65 {
        doc.push_str(" }");
    }
    doc.push('\n');
    let err = parse(&doc).unwrap_err();
    match err {
        Error::ParseError { reason, .. } => assert_eq!(reason, "recursion limit exceeded"),
        other => panic!("expected parse error, got {:?}", other),
    }
}

#[test]
fn parse_never_corrupts_siblings() {
    let root = parse("a.b = 1\na.c = 2\na.b = 3\n").unwrap();
    let a = get(&root, "a");
    assert_eq!(keys_of(a), vec!["b", "c"]);
    assert_eq!(as_int(get(a, "b")), 3);
    assert_eq!(as_int(get(a, "c")), 2);
}

#[test]
fn positions_stay_in_the_document() {
    let doc = "x = 1\n[tbl]\ny = \"s\"\narr = [1, { z = 2 }]\n";
    let root = parse(doc).unwrap();
    fn walk(v: &Value, len: usize) {
        assert!(v.pos().byte <= len);
        if let Some(kvs) = v.iter_kvs() {
            for (_, c) in kvs.iter() {
                walk(c, len);
            }
        }
        if let Some(elems) = v.as_list() {
            for c in elems.iter() {
                walk(c, len);
            }
        }
    }
    walk(&root, doc.len());
}

#[test]
fn scan_succeeds_whenever_parse_does() {
    let docs = [
        "a = 1\n",
        "[t]\nx = \"v\"\n",
        "[[e]]\nn = 1\n[[e]]\nn = 2\n",
        "m = { q = [true, false], }\n",
        "# only a comment\n",
        "",
    ];
    for doc in docs {
        assert!(parse(doc).is_ok(), "parse failed on {:?}", doc);
        assert!(scan(doc).is_ok(), "scan failed on {:?}", doc);
    }
}

#[test]
fn underscores_do_not_change_values() {
    let a = parse("v = 1_000_000\nw = 1_0.2_5\n").unwrap();
    let b = parse("v = 1000000\nw = 10.25\n").unwrap();
    assert_eq!(as_int(get(&a, "v")), as_int(get(&b, "v")));
    assert_eq!(as_float(get(&a, "w")), as_float(get(&b, "w")));
}

#[test]
fn integer_round_trip_through_lexeme() {
    for n in [0i64, 1, 255, 1000, 987_654_321, i64::MAX] {
        let doc = format!("n = {}\n", n);
        let root = parse(&doc).unwrap();
        assert_eq!(as_int(get(&root, "n")), n);
    }
}

#[test]
fn signed_values() {
    let root = parse("a = -5\nb = +3\nc = -1.5\nd = inf\ne = -inf\nf = nan\n").unwrap();
    assert_eq!(as_int(get(&root, "a")), -5);
    assert_eq!(as_int(get(&root, "b")), 3);
    assert_eq!(as_float(get(&root, "c")), -1.5);
    assert_eq!(as_float(get(&root, "d")), f64::INFINITY);
    assert_eq!(as_float(get(&root, "e")), f64::NEG_INFINITY);
    assert!(as_float(get(&root, "f")).is_nan());
}

#[test]
fn table_headers_and_dotted_paths() {
    let root = parse("[a.b]\nc = 1\n[a.d]\ne = 2\n").unwrap();
    let a = get(&root, "a");
    assert_eq!(keys_of(a), vec!["b", "d"]);
    assert_eq!(as_int(get(get(a, "b"), "c")), 1);
    assert_eq!(as_int(get(get(a, "d"), "e")), 2);
}

#[test]
fn header_into_array_descends_last_element() {
    let root = parse("[[pkg]]\nname = \"a\"\n[pkg.meta]\nv = 1\n").unwrap();
    let pkg = get(&root, "pkg").as_list().unwrap();
    assert_eq!(pkg.len(), 1);
    let meta = get(&pkg[0], "meta");
    assert_eq!(as_int(get(meta, "v")), 1);
}

#[test]
fn wrong_shape_on_path_is_an_error() {
    let err = parse("a = 1\na.b = 2\n").unwrap_err();
    match err {
        Error::IncorrectType { got, expected, .. } => {
            assert_eq!(got, "integer");
            assert_eq!(expected, "table");
        }
        other => panic!("expected incorrect type, got {:?}", other),
    }
}

#[test]
fn value_in_key_position_is_an_error() {
    let err = parse("= 1\n").unwrap_err();
    assert!(matches!(err, Error::ParseError { .. }));
}

#[test]
fn december_and_the_thirty_first_parse() {
    let root = parse("d = 2023-12-31\n").unwrap();
    match get(&root, "d") {
        Value::Datetime { datetime, .. } => {
            let date = datetime.date.expect("date part");
            assert_eq!((date.year, date.month, date.day), (2023, 12, 31));
            assert!(datetime.time.is_none());
        }
        other => panic!("expected date, got {:?}", other),
    }
}

#[test]
fn invalid_dates_are_rejected() {
    for doc in ["d = 2023-02-30\n", "d = 1900-02-29\n", "d = 2023-13-01\n", "d = 2023-04-31\n"] {
        let err = parse(doc).unwrap_err();
        match err {
            Error::Scan { error, .. } => assert_eq!(error, ScanError::InvalidNumber),
            other => panic!("expected scan error on {:?}, got {:?}", doc, other),
        }
    }
}

#[test]
fn leap_year_dates_parse() {
    for doc in ["d = 2000-02-29\n", "d = 2024-02-29\n"] {
        assert!(parse(doc).is_ok(), "should accept {:?}", doc);
    }
}

#[test]
fn comments_and_blank_lines() {
    let root = parse("# header\n\na = 1 # trailing\n# tail\n").unwrap();
    assert_eq!(as_int(get(&root, "a")), 1);
}

#[test]
fn quoted_keys_in_headers() {
    let root = parse("[\"quoted\".inner]\nv = 1\n").unwrap();
    let q = get(&root, "quoted");
    assert_eq!(as_int(get(get(q, "inner"), "v")), 1);
}

#[test]
fn strings_keep_their_text() {
    let root = parse("a = \"hi\"\nb = 'raw'\nc = \"\"\"multi\"\"\"\nd = '''x'''\n").unwrap();
    assert_eq!(get(&root, "a").as_str().unwrap(), "hi");
    assert_eq!(get(&root, "b").as_str().unwrap(), "raw");
    assert_eq!(get(&root, "c").as_str().unwrap(), "multi");
    assert_eq!(get(&root, "d").as_str().unwrap(), "x");
}
