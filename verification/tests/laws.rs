//! The library's cross-cutting properties, exercised on concrete inputs:
//! parsing always returns instead of panicking, a successful parse means
//! a table with in-bounds positions, and `scan` accepts whatever `parse`
//! accepted.

use black_dwarf::parse;
use black_dwarf::scan;
use black_dwarf::value::Value;

fn positions_bounded(v: &Value, len: usize) -> bool {
    if v.pos().byte > len {
        return false;
    }
    if let Some(kvs) = v.iter_kvs() {
        return kvs.iter().all(|(_, c)| positions_bounded(c, len));
    }
    if let Some(elems) = v.as_list() {
        return elems.iter().all(|c| positions_bounded(c, len));
    }
    true
}

#[test]
fn parse_always_returns() {
    let adversarial = [
        "",
        "=",
        "==",
        "[",
        "]",
        "[[",
        "]]",
        "[[[",
        "{",
        "}",
        ".",
        "..",
        ",",
        "a",
        "a.",
        ".a",
        "a..b = 1",
        "a = ",
        "a = =",
        "a = [",
        "a = [,]",
        "a = {",
        "a = { , }",
        "a = }",
        "a = ]",
        "\"",
        "'",
        "''",
        "\"\"",
        "'''",
        "\"\"\"",
        "x = '''a'",
        "x = 'a'''",
        "x = \"a",
        "x = \\",
        "x = \"\\\"",
        "0x",
        "x = 0x",
        "x = 0b",
        "x = 0o9",
        "x = 9999999999999999999999999999",
        "x = 1e",
        "x = 1e+",
        "x = 1.2.3",
        "x = 2020-99-99",
        "x = 99:99:99",
        "x = 2020-01-01T99:00:00",
        "x = -",
        "x = +",
        "x = --1",
        "x = ++1",
        "[a]\n[a]\nb = 1",
        "[a.b.c.d.e]\nf = 1",
        "[[a]]\n[[a]]\n[a.b]",
        "x = 1 y = 2 z = 3",
        "x=1\u{301}",
        "\u{1F600} = \"emoji key\"",
        "# comment with no newline",
        "a = 1 # comment\nb = 2",
        "\r\n\r\n\r\na = 1\r\n",
    ];
    for doc in adversarial {
        // Whatever comes back, coming back at all is the property.
        let result = parse(doc);
        if let Ok(root) = &result {
            assert!(root.is_table(), "root not a table for {:?}", doc);
            assert!(
                positions_bounded(root, doc.len()),
                "position out of bounds for {:?}",
                doc
            );
            assert!(scan(doc).is_ok(), "scan rejected what parse took: {:?}", doc);
        }
    }
}

#[test]
fn scan_and_parse_agree_on_clean_documents() {
    let clean = [
        "a = 1",
        "b = \"text\"",
        "[sec]\nk = [1, 2]",
        "[[row]]\nv = true",
        "t = 07:32:00Z",
        "d = 2024-02-29",
    ];
    for doc in clean {
        assert!(scan(doc).is_ok(), "scan failed on {:?}", doc);
        assert!(parse(doc).is_ok(), "parse failed on {:?}", doc);
    }
}
