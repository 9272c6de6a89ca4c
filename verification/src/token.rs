//! Tokens, token kinds, source positions and lexical error kinds.

use vstd::prelude::*;

use crate::date::{Date, Datetime, Offset, Time};

verus! {

/// A position in the source document.
///
/// `line` starts at 1 and increases on every line break (`"\n"` or
/// `"\r\n"`); `col` counts grapheme clusters since the start of the line;
/// `byte` is the byte offset into the document at which the lexeme begins.
#[derive(Debug, PartialEq, Eq, Structural, Clone, Copy)]
pub struct Pos {
    pub line: usize,
    pub col: usize,
    pub byte: usize,
}

/// How a string literal was quoted.
#[derive(Debug, PartialEq, Eq, Structural, Clone, Copy)]
pub enum QuoteType {
    Single,
    Double,
    TripleSingle,
    TripleDouble,
}

/// The lexical errors the scanner can report.
#[derive(Debug, PartialEq, Eq, Structural, Clone, Copy)]
pub enum ScanError {
    InvalidNumber,
    UnterminatedString,
    InvalidDate,
    InvalidTime,
    IncorrectQuoteNumber,
}

/// The kind of a token.
///
/// `[[` is not a distinct kind: the parser peeks two tokens ahead to
/// recognize an array-of-tables header.  `Error` carries the lexical error
/// and its position; `Eof` is sticky.
#[derive(Debug, PartialEq, Eq, Structural, Clone, Copy)]
pub enum TokenType {
    Integer(i64),
    /// A float literal.  The numeric text is the token's lexeme with
    /// underscores removed; no float value is computed here.
    Float,
    Boolean(bool),
    String(QuoteType),
    Datetime(Datetime),
    Date(Date),
    Time { time: Time, offset: Option<Offset> },
    Ident,
    /// `[`
    LeftBracket,
    /// `]`
    RightBracket,
    /// `{`
    LeftBrace,
    /// `}`
    RightBrace,
    Equals,
    Dot,
    Comma,
    Minus,
    Plus,
    Error(ScanError, Pos),
    Eof,
}

impl TokenType {
    /// Whether this is a `Time` token.
    pub fn is_time(&self) -> (r: bool)
        ensures
            r == (self is Time),
    {
        matches!(self, TokenType::Time { .. })
    }

    /// Whether this is a `[` token.
    pub fn is_bracket(&self) -> (r: bool)
        ensures
            r == (self is LeftBracket),
    {
        matches!(self, TokenType::LeftBracket)
    }

    /// Whether a token of this kind may stand as a key-path fragment:
    /// anything but a reserved structural kind or `Eof`.
    pub fn may_be_key(&self) -> (r: bool)
        ensures
            r == spec_may_be_key(*self),
    {
        !matches!(
            self,
            TokenType::LeftBracket
                | TokenType::RightBracket
                | TokenType::LeftBrace
                | TokenType::RightBrace
                | TokenType::Equals
                | TokenType::Dot
                | TokenType::Comma
                | TokenType::Eof
        )
    }

    /// Whether this is an `Eof` token.
    pub fn is_eof(&self) -> (r: bool)
        ensures
            r == (self is Eof),
    {
        matches!(self, TokenType::Eof)
    }

    /// Whether this is an `Error` token.
    pub fn is_error(&self) -> (r: bool)
        ensures
            r == (self is Error),
    {
        matches!(self, TokenType::Error(..))
    }
}

/// Which token kinds may stand as a key-path fragment.
pub open spec fn spec_may_be_key(t: TokenType) -> bool {
    !(t is LeftBracket || t is RightBracket || t is LeftBrace || t is RightBrace || t is Equals
        || t is Dot || t is Comma || t is Eof)
}

/// A classified span of the document.  The lexeme is the exact text the
/// token covers.
#[derive(Debug, Clone)]
pub struct Token {
    pub lexeme: String,
    pub type_: TokenType,
    pub pos: Pos,
}

/// The mathematical image of a token: what the scanner model produces.
pub struct TokenM {
    pub type_: TokenType,
    pub lexeme: Seq<char>,
    pub pos: Pos,
}

/// Whether the executable token `t` is the image of the model token `m`.
pub open spec fn token_matches(t: Token, m: TokenM) -> bool {
    &&& t.type_ == m.type_
    &&& t.lexeme@ == m.lexeme
    &&& t.pos == m.pos
}

} // verus!
