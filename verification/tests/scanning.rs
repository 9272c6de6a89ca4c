//! Tests for the scanner: token kinds, lexemes and positions.

use black_dwarf::scan;
use black_dwarf::token::{ScanError, TokenType};

#[test]
fn tokens_of_a_simple_assignment() {
    let tokens = scan("abc = 123\n").unwrap();
    assert_eq!(tokens.len(), 3);
    assert!(matches!(tokens[0].type_, TokenType::Ident));
    assert_eq!(tokens[0].lexeme, "abc");
    assert!(matches!(tokens[1].type_, TokenType::Equals));
    assert!(matches!(tokens[2].type_, TokenType::Integer(123)));
    assert_eq!(tokens[2].lexeme, "123");
}

#[test]
fn positions_count_lines_and_columns() {
    let tokens = scan("a = 1\nbb = 2\n").unwrap();
    assert_eq!(tokens[0].pos.line, 1);
    assert_eq!(tokens[0].pos.col, 0);
    assert_eq!(tokens[0].pos.byte, 0);
    assert_eq!(tokens[3].pos.line, 2);
    assert_eq!(tokens[3].pos.col, 0);
    assert_eq!(tokens[3].pos.byte, 6);
    assert_eq!(tokens[4].pos.line, 2);
    assert_eq!(tokens[4].pos.col, 3);
}

#[test]
fn crlf_counts_as_one_line_break() {
    let tokens = scan("a = 1\r\nb = 2\n").unwrap();
    assert_eq!(tokens[3].pos.line, 2);
    assert_eq!(tokens[3].pos.col, 0);
}

#[test]
fn keywords_become_booleans() {
    let tokens = scan("true false truely\n").unwrap();
    assert!(matches!(tokens[0].type_, TokenType::Boolean(true)));
    assert!(matches!(tokens[1].type_, TokenType::Boolean(false)));
    assert!(matches!(tokens[2].type_, TokenType::Ident));
}

#[test]
fn based_integers() {
    let tokens = scan("0x10 0o17 0b101 0xfF\n").unwrap();
    assert!(matches!(tokens[0].type_, TokenType::Integer(16)));
    assert!(matches!(tokens[1].type_, TokenType::Integer(15)));
    assert!(matches!(tokens[2].type_, TokenType::Integer(5)));
    assert!(matches!(tokens[3].type_, TokenType::Integer(255)));
}

#[test]
fn floats_are_shapes_not_values() {
    let tokens = scan("1.5 1e3 2.5e-1 1.\n").unwrap();
    for t in &tokens {
        assert!(matches!(t.type_, TokenType::Float), "got {:?}", t.type_);
    }
}

#[test]
fn comments_are_skipped() {
    let tokens = scan("# a comment\nx\n").unwrap();
    assert_eq!(tokens.len(), 1);
    assert_eq!(tokens[0].lexeme, "x");
    assert_eq!(tokens[0].pos.line, 2);
}

#[test]
fn identifiers_take_unicode_clusters() {
    let tokens = scan("caf\u{e9}-menu = 1\n").unwrap();
    assert!(matches!(tokens[0].type_, TokenType::Ident));
    assert_eq!(tokens[0].lexeme, "caf\u{e9}-menu");
}

#[test]
fn scan_reports_the_first_error() {
    let err = scan("a = \"fine\"\nb = \"broken\n").unwrap_err();
    match err {
        black_dwarf::error::Error::Scan { error, position } => {
            assert_eq!(error, ScanError::UnterminatedString);
            assert_eq!(position.line, 2);
        }
        other => panic!("expected scan error, got {:?}", other),
    }
}

#[test]
fn eof_is_quiet_on_empty_documents() {
    assert_eq!(scan("").unwrap().len(), 0);
    assert_eq!(scan("   \t \n").unwrap().len(), 0);
    assert_eq!(scan("# nothing else").unwrap().len(), 0);
}

#[test]
fn structural_tokens() {
    let tokens = scan("[ ] { } , . = + -").unwrap();
    let kinds: Vec<_> = tokens.iter().map(|t| t.type_).collect();
    assert!(matches!(kinds[0], TokenType::LeftBracket));
    assert!(matches!(kinds[1], TokenType::RightBracket));
    assert!(matches!(kinds[2], TokenType::LeftBrace));
    assert!(matches!(kinds[3], TokenType::RightBrace));
    assert!(matches!(kinds[4], TokenType::Comma));
    assert!(matches!(kinds[5], TokenType::Dot));
    assert!(matches!(kinds[6], TokenType::Equals));
    assert!(matches!(kinds[7], TokenType::Plus));
    assert!(matches!(kinds[8], TokenType::Minus));
}

#[test]
fn peeking_does_not_consume() {
    let mut scanner = black_dwarf::Scanner::new("a = 1");
    let p0 = scanner.peek_token();
    let p1 = scanner.peek_nth(1);
    let t0 = scanner.next_token();
    let t1 = scanner.next_token();
    assert_eq!(p0.lexeme, t0.lexeme);
    assert!(matches!(p1.type_, TokenType::Equals));
    assert!(matches!(t1.type_, TokenType::Equals));
    let t2 = scanner.next_token();
    assert!(matches!(t2.type_, TokenType::Integer(1)));
    assert!(matches!(scanner.next_token().type_, TokenType::Eof));
    assert!(matches!(scanner.next_token().type_, TokenType::Eof));
}

#[test]
fn datetime_token_from_speedate() {
    let tokens = scan("2022-01-01T12:13:14+05:30\n").unwrap();
    match tokens[0].type_ {
        TokenType::Datetime(dt) => {
            let date = dt.date.unwrap();
            let time = dt.time.unwrap();
            assert_eq!((date.year, date.month, date.day), (2022, 1, 1));
            assert_eq!((time.hour, time.minute, time.second), (12, 13, 14));
            assert_eq!(dt.offset, Some(black_dwarf::date::Offset::Minutes(330)));
        }
        other => panic!("expected datetime, got {:?}", other),
    }
}

#[test]
fn fractional_seconds_become_nanoseconds() {
    let tokens = scan("2022-01-01T00:00:00.25Z\n").unwrap();
    match tokens[0].type_ {
        TokenType::Datetime(dt) => {
            assert_eq!(dt.time.unwrap().nanosecond, 250_000_000);
        }
        other => panic!("expected datetime, got {:?}", other),
    }
}
