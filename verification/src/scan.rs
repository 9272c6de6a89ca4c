//! The scanner: grapheme clusters in, tokens out.
//!
//! The module first defines the *token model*: pure functions from the
//! cluster sequence and a start index to the token found there and the
//! index after it.  The executable scanner is then proved to return
//! exactly the model's tokens.  Both `scan` and the parser speak about the
//! same model, which is what ties their contracts together.

use vstd::prelude::*;

use crate::chars::{is_digit_char, is_non_ident_seq, is_ws_seq, spec_is_digit};
use crate::date::{spec_date_parse, spec_datetime_of_parts, spec_time_parse, speedate_datetime_of};
use crate::error::Error;
use crate::num::{spec_dec_i64, spec_is_float_lit, spec_strip_us};
use crate::token::{Pos, QuoteType, ScanError, Token, TokenM, TokenType};
use crate::unicode::byte_at;

verus! {

/// Whether the grapheme `g` is a line break.
pub open spec fn is_nl(g: Seq<char>) -> bool {
    g == seq!['\n'] || g == seq!['\r', '\n']
}

/// The line number at cluster index `i`: one plus the line breaks before
/// it.
pub open spec fn line_at(gs: Seq<Seq<char>>, i: int) -> int
    decreases i,
{
    if i <= 0 {
        1
    } else {
        line_at(gs, i - 1) + if is_nl(gs[i - 1]) {
            1int
        } else {
            0int
        }
    }
}

/// The column at cluster index `i`: clusters since the last line break.
pub open spec fn col_at(gs: Seq<Seq<char>>, i: int) -> int
    decreases i,
{
    if i <= 0 {
        0
    } else if is_nl(gs[i - 1]) {
        0
    } else {
        col_at(gs, i - 1) + 1
    }
}

/// The position at cluster index `i`.
pub open spec fn pos_at(gs: Seq<Seq<char>>, i: int) -> Pos {
    Pos { line: line_at(gs, i) as usize, col: col_at(gs, i) as usize, byte: byte_at(gs, i) as usize }
}

/// The index of the next token start at or after `i`: whitespace is
/// skipped, and a `#` starts a comment that runs to the line break.
pub open spec fn tstart(gs: Seq<Seq<char>>, i: int, in_comment: bool) -> int
    decreases gs.len() - i, (if in_comment { 1int } else { 0int }),
{
    if i < 0 {
        0
    } else if i >= gs.len() {
        gs.len() as int
    } else if in_comment {
        if is_nl(gs[i]) {
            tstart(gs, i, false)
        } else {
            tstart(gs, i + 1, true)
        }
    } else {
        if is_ws_seq(gs[i]) {
            tstart(gs, i + 1, false)
        } else if gs[i] == seq!['#'] {
            tstart(gs, i + 1, true)
        } else {
            i
        }
    }
}

/// The start of the token at or after `i`.
pub open spec fn token_start(gs: Seq<Seq<char>>, i: int) -> int {
    tstart(gs, i, false)
}

/// A token start lies between `i` and the end, and the cluster there is
/// neither whitespace nor a comment opener.
pub proof fn lemma_tstart_props(gs: Seq<Seq<char>>, i: int, in_comment: bool)
    requires
        0 <= i <= gs.len(),
    ensures
        i <= tstart(gs, i, in_comment) <= gs.len(),
        tstart(gs, i, in_comment) < gs.len() ==> {
            let s = tstart(gs, i, in_comment);
            !is_ws_seq(gs[s]) && gs[s] != seq!['#']
        },
    decreases gs.len() - i, (if in_comment { 1int } else { 0int }),
{
    if i < gs.len() {
        if in_comment {
            if is_nl(gs[i]) {
                lemma_tstart_props(gs, i, false);
            } else {
                lemma_tstart_props(gs, i + 1, true);
            }
        } else {
            if is_ws_seq(gs[i]) {
                lemma_tstart_props(gs, i + 1, false);
            } else if gs[i] == seq!['#'] {
                lemma_tstart_props(gs, i + 1, true);
            }
        }
    }
}

/// Whether the grapheme `g` may continue a numeric run: a hex digit or
/// one of the base, date, time, exponent and separator markers.
pub open spec fn num_char_ok(g: Seq<char>) -> bool {
    ||| spec_is_digit(g, 16)
    ||| g == seq!['x']
    ||| g == seq!['o']
    ||| g == seq!['b']
    ||| g == seq!['T']
    ||| g == seq!['Z']
    ||| g == seq!['-']
    ||| g == seq![':']
    ||| g == seq!['+']
    ||| g == seq!['e']
    ||| g == seq!['E']
    ||| g == seq!['_']
    ||| g == seq!['.']
}

/// The end of the numeric run that continues at `i`.
pub open spec fn run_end(gs: Seq<Seq<char>>, i: int) -> int
    decreases gs.len() - i,
{
    if i < 0 || i >= gs.len() {
        gs.len() as int
    } else if num_char_ok(gs[i]) {
        run_end(gs, i + 1)
    } else {
        i
    }
}

/// The end of the identifier that continues at `i`.
pub open spec fn ident_end(gs: Seq<Seq<char>>, i: int) -> int
    decreases gs.len() - i,
{
    if i < 0 || i >= gs.len() {
        gs.len() as int
    } else if !is_non_ident_seq(gs[i]) {
        ident_end(gs, i + 1)
    } else {
        i
    }
}

/// A run end lies between `i` and the end of the input.
pub proof fn lemma_scan_ends(gs: Seq<Seq<char>>, i: int)
    requires
        0 <= i <= gs.len(),
    ensures
        i <= run_end(gs, i) <= gs.len(),
        i <= ident_end(gs, i) <= gs.len(),
    decreases gs.len() - i,
{
    if i < gs.len() {
        lemma_scan_ends(gs, i + 1);
    }
}

/// How many consecutive clusters equal to `q` stand at `i`, counting at
/// most `max`.
pub open spec fn count_quotes(gs: Seq<Seq<char>>, i: int, q: Seq<char>, max: int) -> int
    decreases max,
{
    if max <= 0 || i < 0 || i >= gs.len() || gs[i] != q {
        0
    } else {
        1 + count_quotes(gs, i + 1, q, max - 1)
    }
}

pub proof fn lemma_count_quotes_range(gs: Seq<Seq<char>>, i: int, q: Seq<char>, max: int)
    ensures
        0 <= count_quotes(gs, i, q, max),
        count_quotes(gs, i, q, max) <= max || max < 0,
        i + count_quotes(gs, i, q, max) <= gs.len() || i > gs.len(),
    decreases max,
{
    if !(max <= 0 || i < 0 || i >= gs.len() || gs[i] != q) {
        lemma_count_quotes_range(gs, i + 1, q, max - 1);
    }
}

/// The index of the closing quote of a string body that starts at `i`,
/// or the end of input if the string is unterminated.  Inside double
/// quotes a backslash escapes the next cluster.
pub open spec fn str_body_end(gs: Seq<Seq<char>>, i: int, q: Seq<char>) -> int
    decreases gs.len() - i,
{
    if i < 0 || i >= gs.len() {
        gs.len() as int
    } else if gs[i] == q {
        i
    } else if gs[i] == seq!['\\'] && q == seq!['"'] {
        if i + 1 >= gs.len() {
            gs.len() as int
        } else {
            str_body_end(gs, i + 2, q)
        }
    } else {
        str_body_end(gs, i + 1, q)
    }
}

pub proof fn lemma_str_body_end_range(gs: Seq<Seq<char>>, i: int, q: Seq<char>)
    requires
        0 <= i <= gs.len(),
    ensures
        i <= str_body_end(gs, i, q) <= gs.len(),
        str_body_end(gs, i, q) < gs.len() ==> gs[str_body_end(gs, i, q)] == q,
    decreases gs.len() - i,
{
    if i < gs.len() && gs[i] != q {
        if gs[i] == seq!['\\'] && q == seq!['"'] {
            if i + 1 < gs.len() {
                lemma_str_body_end_range(gs, i + 2, q);
            }
        } else {
            lemma_str_body_end_range(gs, i + 1, q);
        }
    }
}

/// The quote kind a string token gets from its quote character and the
/// number of closing quotes.
pub open spec fn quote_type_of(q: Seq<char>, n2: int) -> QuoteType {
    if n2 == 1 && q == seq!['\''] {
        QuoteType::Single
    } else if n2 == 1 {
        QuoteType::Double
    } else if q == seq!['\''] {
        QuoteType::TripleSingle
    } else {
        QuoteType::TripleDouble
    }
}

/// The kind and end of the string token whose first quote stands at `s`.
/// Exactly two opening or closing quotes is an error; running out of
/// input before the closing quote is an error.
pub open spec fn string_token(gs: Seq<Seq<char>>, s: int, pos: Pos) -> (TokenType, int) {
    let q = gs[s];
    let n1 = 1 + count_quotes(gs, s + 1, q, 2);
    if n1 == 2 {
        (TokenType::Error(ScanError::IncorrectQuoteNumber, pos), s + 2)
    } else {
        let b = str_body_end(gs, s + n1, q);
        if b >= gs.len() {
            (TokenType::Error(ScanError::UnterminatedString, pos), gs.len() as int)
        } else {
            let n2 = 1 + count_quotes(gs, b + 1, q, 2);
            if n2 == 2 {
                (TokenType::Error(ScanError::IncorrectQuoteNumber, pos), b + 2)
            } else {
                (TokenType::String(quote_type_of(q, n2)), b + n2)
            }
        }
    }
}

/// One step of the wrapping base accumulation: `acc * base + d` modulo
/// the 64-bit range.
pub open spec fn wrap_step(acc: i64, base: i64, d: i64) -> i64 {
    vstd::wrapping::i64_specs::wrapping_add(vstd::wrapping::i64_specs::wrapping_mul(acc, base), d)
}

/// The value of the base-`base` digits at the front of `t`, accumulated
/// with wrapping 64-bit arithmetic; anything after the first non-digit is
/// ignored.
pub open spec fn spec_based_scan(t: Seq<char>, i: int, base: int, acc: i64) -> i64
    decreases t.len() - i,
{
    if i < 0 || i >= t.len() || !is_digit_char(t[i], base) {
        acc
    } else {
        spec_based_scan(
            t,
            i + 1,
            base,
            wrap_step(acc, base as i64, crate::chars::digit_val(t[i]) as i64),
        )
    }
}

/// The kind of a numeric token with lexeme `lex`, classified in order:
/// based integer, decimal integer, float shape, date, date-time, time;
/// anything else is an invalid number.  Underscores are stripped before
/// the integer and float readings; date and time readings see the raw
/// lexeme.
pub open spec fn classify_num(lex: Seq<char>, pos: Pos) -> TokenType {
    let t = spec_strip_us(lex);
    if t.len() >= 2 && t[0] == '0' && (t[1] == 'x' || t[1] == 'o' || t[1] == 'b') {
        let base: int = if t[1] == 'x' {
            16
        } else if t[1] == 'o' {
            8
        } else {
            2
        };
        TokenType::Integer(spec_based_scan(t, 2, base, 0))
    } else if spec_dec_i64(t) is Some {
        TokenType::Integer(spec_dec_i64(t)->0)
    } else if spec_is_float_lit(t) {
        TokenType::Float
    } else if spec_date_parse(lex) is Some {
        TokenType::Date(spec_date_parse(lex)->0)
    } else if speedate_datetime_of(lex) is Some {
        TokenType::Datetime(spec_datetime_of_parts(speedate_datetime_of(lex)->0))
    } else if spec_time_parse(lex) is Some {
        let tp = spec_time_parse(lex)->0;
        TokenType::Time { time: tp.0, offset: tp.1 }
    } else {
        TokenType::Error(ScanError::InvalidNumber, pos)
    }
}

/// The lexeme covering clusters `a..b`.
pub open spec fn cat(gs: Seq<Seq<char>>, a: int, b: int) -> Seq<char> {
    gs.subrange(a, b).flatten()
}

/// The token model: the token that starts at or after cluster `i0`, and
/// the cluster index just after it.  At the end of input the token is
/// `Eof` and the index stays put.
pub open spec fn scan_m(gs: Seq<Seq<char>>, i0: int) -> (TokenM, int) {
    let s = token_start(gs, i0);
    let pos = pos_at(gs, s);
    if s >= gs.len() {
        (TokenM { type_: TokenType::Eof, lexeme: Seq::<char>::empty(), pos }, gs.len() as int)
    } else {
        let g = gs[s];
        if g == seq!['+'] {
            (TokenM { type_: TokenType::Plus, lexeme: g, pos }, s + 1)
        } else if g == seq!['-'] {
            (TokenM { type_: TokenType::Minus, lexeme: g, pos }, s + 1)
        } else if g == seq!['{'] {
            (TokenM { type_: TokenType::LeftBrace, lexeme: g, pos }, s + 1)
        } else if g == seq!['}'] {
            (TokenM { type_: TokenType::RightBrace, lexeme: g, pos }, s + 1)
        } else if g == seq![','] {
            (TokenM { type_: TokenType::Comma, lexeme: g, pos }, s + 1)
        } else if g == seq!['.'] {
            (TokenM { type_: TokenType::Dot, lexeme: g, pos }, s + 1)
        } else if g == seq!['='] {
            (TokenM { type_: TokenType::Equals, lexeme: g, pos }, s + 1)
        } else if g == seq!['['] {
            (TokenM { type_: TokenType::LeftBracket, lexeme: g, pos }, s + 1)
        } else if g == seq![']'] {
            (TokenM { type_: TokenType::RightBracket, lexeme: g, pos }, s + 1)
        } else if spec_is_digit(g, 10) {
            let e = run_end(gs, s + 1);
            let lex = cat(gs, s, e);
            (TokenM { type_: classify_num(lex, pos), lexeme: lex, pos }, e)
        } else if g == seq!['"'] || g == seq!['\''] {
            let (ty, e) = string_token(gs, s, pos);
            (TokenM { type_: ty, lexeme: cat(gs, s, e), pos }, e)
        } else {
            let e = ident_end(gs, s + 1);
            let lex = cat(gs, s, e);
            let ty = if lex == seq!['t', 'r', 'u', 'e'] {
                TokenType::Boolean(true)
            } else if lex == seq!['f', 'a', 'l', 's', 'e'] {
                TokenType::Boolean(false)
            } else {
                TokenType::Ident
            };
            (TokenM { type_: ty, lexeme: lex, pos }, e)
        }
    }
}

/// The token the model finds at `i0`.
pub open spec fn model_token(gs: Seq<Seq<char>>, i0: int) -> TokenM {
    scan_m(gs, i0).0
}

/// The cluster index just after the token at `i0`.
pub open spec fn next_index(gs: Seq<Seq<char>>, i0: int) -> int {
    scan_m(gs, i0).1
}

/// The model makes progress: the next index never precedes the current
/// one, stays within the input, and strictly advances on every token but
/// `Eof`.
pub proof fn lemma_next_index(gs: Seq<Seq<char>>, i0: int)
    requires
        0 <= i0 <= gs.len(),
    ensures
        i0 <= next_index(gs, i0) <= gs.len(),
        !(model_token(gs, i0).type_ is Eof) ==> next_index(gs, i0) > i0,
        model_token(gs, i0).type_ is Eof ==> next_index(gs, i0) == gs.len(),
{
    lemma_tstart_props(gs, i0, false);
    let s = token_start(gs, i0);
    if s < gs.len() {
        let g = gs[s];
        lemma_scan_ends(gs, s + 1);
        if g == seq!['"'] || g == seq!['\''] {
            let q = g;
            lemma_count_quotes_range(gs, s + 1, q, 2);
            let n1 = 1 + count_quotes(gs, s + 1, q, 2);
            if n1 != 2 {
                lemma_str_body_end_range(gs, s + n1, q);
                let b = str_body_end(gs, s + n1, q);
                if b < gs.len() {
                    lemma_count_quotes_range(gs, b + 1, q, 2);
                }
            }
        }
    }
}

/// The index the model reaches after reading `n + 1` tokens from `i0`.
pub open spec fn nth_index(gs: Seq<Seq<char>>, i0: int, n: nat) -> int
    decreases n,
{
    if n == 0 {
        i0
    } else {
        next_index(gs, nth_index(gs, i0, (n - 1) as nat))
    }
}

/// Whether the token stream from `i0` reaches `Eof` without an error
/// token.
pub open spec fn stream_ok(gs: Seq<Seq<char>>, i0: int) -> bool
    decreases gs.len() - i0,
{
    let t = model_token(gs, i0).type_;
    if t is Eof {
        true
    } else if t is Error {
        false
    } else if i0 < next_index(gs, i0) <= gs.len() {
        stream_ok(gs, next_index(gs, i0))
    } else {
        true
    }
}


/// Underscores have no effect on numeric values: a numeric lexeme that
/// reads as an integer or a float reads the same with its underscores
/// removed, because classification strips them before reading.
pub proof fn lemma_underscores_insensitive(lex: Seq<char>, pos: Pos)
    ensures
        (classify_num(lex, pos) matches TokenType::Integer(_) || classify_num(lex, pos)
            is Float) ==> classify_num(spec_strip_us(lex), pos) == classify_num(lex, pos),
{
    crate::num::lemma_strip_us_idempotent(lex);
}

/// Every model token's position stays within the document's bytes.
pub proof fn lemma_model_pos_bounded(gs: Seq<Seq<char>>, i: int)
    requires
        gs_wf(gs),
        0 <= i <= gs.len(),
    ensures
        model_token(gs, i).pos.byte as int <= byte_at(gs, gs.len() as int),
{
    lemma_tstart_props(gs, i, false);
    let s = token_start(gs, i);
    crate::unicode::lemma_byte_at_mono(gs, s, gs.len() as int);
    crate::unicode::lemma_byte_at_mono(gs, 0, s);
}

/// The tokens of the stream from `i0`: everything up to the first `Eof`
/// or error token, exclusive.
pub open spec fn token_seq(gs: Seq<Seq<char>>, i0: int) -> Seq<TokenM>
    decreases gs.len() - i0,
{
    let t = model_token(gs, i0);
    if t.type_ is Eof || t.type_ is Error {
        Seq::<TokenM>::empty()
    } else if i0 < next_index(gs, i0) <= gs.len() {
        seq![t] + token_seq(gs, next_index(gs, i0))
    } else {
        seq![t]
    }
}

/// The first error token of the stream from `i0`, with its position, if
/// the stream has one before `Eof`.
pub open spec fn first_error(gs: Seq<Seq<char>>, i0: int) -> Option<(ScanError, Pos)>
    decreases gs.len() - i0,
{
    let t = model_token(gs, i0);
    if t.type_ is Eof {
        None
    } else if t.type_ is Error {
        Some((t.type_->Error_0, t.pos))
    } else if i0 < next_index(gs, i0) <= gs.len() {
        first_error(gs, next_index(gs, i0))
    } else {
        None
    }
}

/// One unfolding of `stream_ok`, packaged: an error token refutes the
/// stream, `Eof` settles it, and any other token passes the question to
/// the next index.
pub proof fn lemma_stream_ok_step(gs: Seq<Seq<char>>, i: int)
    requires
        0 <= i <= gs.len(),
    ensures
        model_token(gs, i).type_ is Error ==> !stream_ok(gs, i),
        model_token(gs, i).type_ is Eof ==> stream_ok(gs, i),
        !(model_token(gs, i).type_ is Error) && !(model_token(gs, i).type_ is Eof) ==> (stream_ok(
            gs,
            next_index(gs, i),
        ) <==> stream_ok(gs, i)),
{
    lemma_next_index(gs, i);
}

/// A cursor into the cluster sequence: the next cluster index, with the
/// line, column and byte offset that index lies at.
#[derive(Debug, PartialEq, Eq, Structural, Clone, Copy)]
pub struct Cursor {
    pub i: usize,
    pub line: usize,
    pub col: usize,
    pub byte: usize,
}

/// The cluster sequences of a grapheme vector.
pub open spec fn view_gs(gs: Seq<String>) -> Seq<Seq<char>> {
    gs.map_values(|g: String| g@)
}

/// Global facts about a well-formed cluster sequence: clusters are
/// non-empty, and the whole document is comfortably short of the address
/// space.
pub open spec fn gs_wf(gs: Seq<Seq<char>>) -> bool {
    &&& forall|k: int| 0 <= k < gs.len() ==> #[trigger] gs[k].len() > 0
    &&& byte_at(gs, gs.len() as int) < usize::MAX / 4
}

/// A cursor agrees with the position functions at its index.
pub open spec fn cursor_wf(gs: Seq<Seq<char>>, c: Cursor) -> bool {
    &&& c.i <= gs.len()
    &&& c.line as int == line_at(gs, c.i as int)
    &&& c.col as int == col_at(gs, c.i as int)
    &&& c.byte as int == byte_at(gs, c.i as int)
}

/// Lines grow by at most one per cluster; columns likewise.
proof fn lemma_line_col_bounds(gs: Seq<Seq<char>>, i: int)
    requires
        0 <= i,
    ensures
        1 <= line_at(gs, i) <= i + 1,
        0 <= col_at(gs, i) <= i,
    decreases i,
{
    if i > 0 {
        lemma_line_col_bounds(gs, i - 1);
    }
}

/// Byte offsets are non-negative.
proof fn lemma_byte_at_nonneg(gs: Seq<Seq<char>>, i: int)
    ensures
        i >= 0 ==> byte_at(gs, i) >= 0,
{
    if i >= 0 {
        crate::unicode::lemma_byte_at_mono(gs, 0, i);
    }
}

/// Consumes the cluster under the cursor.
fn advance(gs: &Vec<String>, c: Cursor) -> (r: Cursor)
    requires
        gs_wf(view_gs(gs@)),
        cursor_wf(view_gs(gs@), c),
        (c.i as int) < gs@.len(),
    ensures
        r.i == c.i + 1,
        cursor_wf(view_gs(gs@), r),
{
    let ghost gsv = view_gs(gs@);
    let g = &gs[c.i];
    proof {
        assert(gsv[c.i as int] == g@);
        crate::unicode::lemma_byte_at_mono(gsv, c.i + 1, gsv.len() as int);
        lemma_byte_at_nonneg(gsv, c.i as int);
        lemma_line_col_bounds(gsv, c.i as int);
        crate::unicode::lemma_count_le_bytes(gsv, gsv.len() as int);
        assert(byte_at(gsv, c.i + 1) == byte_at(gsv, c.i as int) + vstd::utf8::encode_utf8(
            gsv[c.i as int],
        ).len());
    }
    let glen = g.as_str().len();
    let nl = crate::chars::g_is(g.as_str(), '\n') || crate::chars::g_is_crlf(g.as_str());
    Cursor {
        i: c.i + 1,
        line: if nl {
            c.line + 1
        } else {
            c.line
        },
        col: if nl {
            0
        } else {
            c.col + 1
        },
        byte: c.byte + glen,
    }
}

/// Moves the cursor forward to `e`.
fn advance_to(gs: &Vec<String>, c: Cursor, e: usize) -> (r: Cursor)
    requires
        gs_wf(view_gs(gs@)),
        cursor_wf(view_gs(gs@), c),
        c.i <= e <= gs@.len(),
    ensures
        r.i == e,
        cursor_wf(view_gs(gs@), r),
{
    let mut c = c;
    while c.i < e
        invariant
            gs_wf(view_gs(gs@)),
            cursor_wf(view_gs(gs@), c),
            c.i <= e <= gs@.len(),
        decreases e - c.i,
    {
        c = advance(gs, c);
    }
    c
}

/// Skips whitespace and comments to the next token start.
fn skip_to_token(gs: &Vec<String>, c0: Cursor) -> (r: Cursor)
    requires
        gs_wf(view_gs(gs@)),
        cursor_wf(view_gs(gs@), c0),
    ensures
        cursor_wf(view_gs(gs@), r),
        r.i as int == token_start(view_gs(gs@), c0.i as int),
        c0.i <= r.i <= gs@.len(),
{
    let ghost gsv = view_gs(gs@);
    proof {
        lemma_tstart_props(gsv, c0.i as int, false);
    }
    let mut c = c0;
    let mut in_comment = false;
    loop
        invariant
            gs_wf(gsv),
            gsv == view_gs(gs@),
            cursor_wf(gsv, c),
            c0.i <= c.i <= gs@.len(),
            tstart(gsv, c0.i as int, false) == tstart(gsv, c.i as int, in_comment),
        decreases gs@.len() - c.i, (if in_comment { 1int } else { 0int }),
    {
        if c.i >= gs.len() {
            return c;
        }
        let g = &gs[c.i];
        proof {
            assert(gsv[c.i as int] == g@);
        }
        if in_comment {
            if crate::chars::g_is(g.as_str(), '\n') || crate::chars::g_is_crlf(g.as_str()) {
                in_comment = false;
            } else {
                c = advance(gs, c);
            }
        } else {
            if crate::chars::is_whitespace(g.as_str()) {
                c = advance(gs, c);
            } else if crate::chars::g_is(g.as_str(), '#') {
                c = advance(gs, c);
                in_comment = true;
            } else {
                return c;
            }
        }
    }
}

/// Whether the grapheme `g` may continue a numeric run.
fn is_num_char(g: &str) -> (r: bool)
    ensures
        r == num_char_ok(g@),
{
    crate::chars::is_digit(g, 16) || crate::chars::g_is(g, 'x') || crate::chars::g_is(g, 'o')
        || crate::chars::g_is(g, 'b') || crate::chars::g_is(g, 'T') || crate::chars::g_is(g, 'Z')
        || crate::chars::g_is(g, '-') || crate::chars::g_is(g, ':') || crate::chars::g_is(g, '+')
        || crate::chars::g_is(g, 'e') || crate::chars::g_is(g, 'E') || crate::chars::g_is(g, '_')
        || crate::chars::g_is(g, '.')
}

/// The end of the numeric run that continues at `from`.
fn run_end_x(gs: &Vec<String>, from: usize) -> (r: usize)
    requires
        from <= gs@.len(),
    ensures
        r as int == run_end(view_gs(gs@), from as int),
        from <= r <= gs@.len(),
{
    let ghost gsv = view_gs(gs@);
    let mut i = from;
    while i < gs.len()
        invariant
            from <= i <= gs@.len(),
            gsv == view_gs(gs@),
            run_end(gsv, from as int) == run_end(gsv, i as int),
        decreases gs@.len() - i,
    {
        let g = &gs[i];
        proof {
            assert(gsv[i as int] == g@);
        }
        if !is_num_char(g.as_str()) {
            return i;
        }
        i = i + 1;
    }
    i
}

/// The end of the identifier that continues at `from`.
fn ident_end_x(gs: &Vec<String>, from: usize) -> (r: usize)
    requires
        from <= gs@.len(),
    ensures
        r as int == ident_end(view_gs(gs@), from as int),
        from <= r <= gs@.len(),
{
    let ghost gsv = view_gs(gs@);
    let mut i = from;
    while i < gs.len()
        invariant
            from <= i <= gs@.len(),
            gsv == view_gs(gs@),
            ident_end(gsv, from as int) == ident_end(gsv, i as int),
        decreases gs@.len() - i,
    {
        let g = &gs[i];
        proof {
            assert(gsv[i as int] == g@);
        }
        if crate::chars::is_non_identifier(g.as_str()) {
            return i;
        }
        i = i + 1;
    }
    i
}

/// Appending one more cluster extends the lexeme.
proof fn lemma_cat_push(gs: Seq<Seq<char>>, a: int, k: int)
    requires
        0 <= a <= k < gs.len(),
    ensures
        cat(gs, a, k + 1) == cat(gs, a, k) + gs[k],
{
    assert(gs.subrange(a, k + 1) =~= gs.subrange(a, k).push(gs[k]));
    gs.subrange(a, k).lemma_flatten_push(gs[k]);
}

/// A lexeme's encoding occupies the bytes between its end offsets.
proof fn lemma_cat_bytes(gs: Seq<Seq<char>>, a: int, b: int)
    requires
        0 <= a <= b <= gs.len(),
    ensures
        vstd::utf8::encode_utf8(cat(gs, a, b)).len() == byte_at(gs, b) - byte_at(gs, a),
    decreases b - a,
{
    if a == b {
        assert(gs.subrange(a, a) =~= Seq::<Seq<char>>::empty());
        assert(cat(gs, a, a) =~= Seq::<char>::empty());
    } else {
        lemma_cat_bytes(gs, a, b - 1);
        lemma_cat_push(gs, a, b - 1);
        crate::unicode::lemma_encode_concat(cat(gs, a, b - 1), gs[b - 1]);
    }
}

/// The text covering clusters `a..b`, as one string.
fn lexeme_between(gs: &Vec<String>, a: usize, b: usize) -> (r: String)
    requires
        a <= b <= gs@.len(),
    ensures
        r@ == cat(view_gs(gs@), a as int, b as int),
{
    let ghost gsv = view_gs(gs@);
    let mut out = String::new();
    let mut k = a;
    proof {
        assert(gsv.subrange(a as int, a as int) =~= Seq::<Seq<char>>::empty());
        assert(cat(gsv, a as int, a as int) =~= Seq::<char>::empty());
    }
    while k < b
        invariant
            a <= k <= b <= gs@.len(),
            gsv == view_gs(gs@),
            out@ == cat(gsv, a as int, k as int),
        decreases b - k,
    {
        proof {
            lemma_cat_push(gsv, a as int, k as int);
            assert(gsv[k as int] == gs@[k as int]@);
        }
        out.append(gs[k].as_str());
        k = k + 1;
    }
    out
}

/// The characters of `s`, as a vector.
fn chars_of(s: &str) -> (r: Vec<char>)
    ensures
        r@ == s@,
{
    let n = s.unicode_len();
    let mut r: Vec<char> = Vec::new();
    let mut i: usize = 0;
    while i < n
        invariant
            0 <= i <= n,
            n == s@.len(),
            r@ == s@.subrange(0, i as int),
        decreases n - i,
    {
        let c = s.get_char(i);
        proof {
            assert(s@.subrange(0, i + 1) =~= s@.subrange(0, i as int).push(s@[i as int]));
        }
        r.push(c);
        i = i + 1;
    }
    proof {
        assert(s@.subrange(0, i as int) =~= s@);
    }
    r
}

/// The base-`base` value of the digits at the front of `t[from..]`,
/// accumulated with wrapping 64-bit arithmetic.
fn based_scan_x(t: &Vec<char>, from: usize, base: usize) -> (r: i64)
    requires
        from <= t@.len(),
        base == 2 || base == 8 || base == 16,
    ensures
        r == spec_based_scan(t@, from as int, base as int, 0),
{
    let mut acc: i64 = 0;
    let mut i = from;
    while i < t.len()
        invariant
            from <= i <= t@.len(),
            base == 2 || base == 8 || base == 16,
            spec_based_scan(t@, from as int, base as int, 0) == spec_based_scan(
                t@,
                i as int,
                base as int,
                acc,
            ),
        decreases t@.len() - i,
    {
        let c = t[i];
        if !crate::chars::char_is_digit(c, base) {
            return acc;
        }
        let d = crate::chars::char_to_digit(c);
        acc = acc.wrapping_mul(base as i64).wrapping_add(d);
        i = i + 1;
    }
    acc
}

/// Whether the characters spell `true`.
fn is_true_lex(t: &Vec<char>) -> (r: bool)
    ensures
        r == (t@ == seq!['t', 'r', 'u', 'e']),
{
    let r = t.len() == 4 && t[0] == 't' && t[1] == 'r' && t[2] == 'u' && t[3] == 'e';
    proof {
        if r {
            assert(t@ =~= seq!['t', 'r', 'u', 'e']);
        }
    }
    r
}

/// Whether the characters spell `false`.
fn is_false_lex(t: &Vec<char>) -> (r: bool)
    ensures
        r == (t@ == seq!['f', 'a', 'l', 's', 'e']),
{
    let r = t.len() == 5 && t[0] == 'f' && t[1] == 'a' && t[2] == 'l' && t[3] == 's' && t[4]
        == 'e';
    proof {
        if r {
            assert(t@ =~= seq!['f', 'a', 'l', 's', 'e']);
        }
    }
    r
}

/// Classifies a numeric lexeme, as [`classify_num`] states.
fn classify_num_x(lex: &String, chars: &Vec<char>, pos: Pos) -> (r: TokenType)
    requires
        chars@ == lex@,
        chars@.len() < usize::MAX - 16,
    ensures
        r == classify_num(lex@, pos),
{
    let stripped = crate::num::strip_us(chars);
    if stripped.len() >= 2 && stripped[0] == '0' && (stripped[1] == 'x' || stripped[1] == 'o'
        || stripped[1] == 'b') {
        let base: usize = if stripped[1] == 'x' {
            16
        } else if stripped[1] == 'o' {
            8
        } else {
            2
        };
        TokenType::Integer(based_scan_x(&stripped, 2, base))
    } else {
        let dec = crate::num::dec_i64(&stripped);
        match dec {
            Some(v) => TokenType::Integer(v),
            None => {
                if crate::num::is_float_lit(&stripped) {
                    TokenType::Float
                } else {
                    match crate::date::Date::from_str(chars) {
                        Ok(d) => TokenType::Date(d),
                        Err(_) => {
                            match crate::date::speedate_parse(lex.as_str()) {
                                Some(p) => TokenType::Datetime(
                                    crate::date::datetime_from_parts(p),
                                ),
                                None => {
                                    match crate::date::time_parse(chars) {
                                        Some(to) => TokenType::Time {
                                            time: to.0,
                                            offset: to.1,
                                        },
                                        None => TokenType::Error(ScanError::InvalidNumber, pos),
                                    }
                                },
                            }
                        },
                    }
                }
            },
        }
    }
}

/// Scans a string token whose opening quote stands under the cursor, as
/// [`string_token`] states.
fn scan_string_x(gs: &Vec<String>, c0: Cursor, pos: Pos) -> (r: (TokenType, Cursor))
    requires
        gs_wf(view_gs(gs@)),
        cursor_wf(view_gs(gs@), c0),
        (c0.i as int) < gs@.len(),
        view_gs(gs@)[c0.i as int] == seq!['"'] || view_gs(gs@)[c0.i as int] == seq!['\''],
    ensures
        r.0 == string_token(view_gs(gs@), c0.i as int, pos).0,
        r.1.i as int == string_token(view_gs(gs@), c0.i as int, pos).1,
        cursor_wf(view_gs(gs@), r.1),
        c0.i <= r.1.i <= gs@.len(),
{
    let ghost gsv = view_gs(gs@);
    let ghost s = c0.i as int;
    let ghost q = gsv[s];
    let is_double = crate::chars::g_is(gs[c0.i].as_str(), '"');
    let qc: char = if is_double {
        '"'
    } else {
        '\''
    };
    proof {
        assert(q == seq![qc]);
    }
    let mut c = advance(gs, c0);
    // opening quotes
    let mut n1: usize = 1;
    while n1 < 3 && c.i < gs.len() && crate::chars::g_is(gs[c.i].as_str(), qc)
        invariant
            gs_wf(gsv),
            gsv == view_gs(gs@),
            cursor_wf(gsv, c),
            1 <= n1 <= 3,
            c.i as int == s + n1,
            s + n1 <= gsv.len(),
            q == seq![qc],
            (n1 - 1) + count_quotes(gsv, c.i as int, q, 3 - n1) == count_quotes(gsv, s + 1, q, 2),
        decreases 3 - n1,
    {
        c = advance(gs, c);
        n1 = n1 + 1;
    }
    proof {
        assert(count_quotes(gsv, c.i as int, q, 3 - n1) == 0);
        assert(n1 - 1 == count_quotes(gsv, s + 1, q, 2));
    }
    if n1 == 2 {
        return (TokenType::Error(ScanError::IncorrectQuoteNumber, pos), c);
    }
    // body
    while c.i < gs.len() && !crate::chars::g_is(gs[c.i].as_str(), qc)
        invariant
            gs_wf(gsv),
            gsv == view_gs(gs@),
            cursor_wf(gsv, c),
            s + 1 <= c.i <= gsv.len(),
            q == seq![qc],
            is_double == (q == seq!['"']),
            str_body_end(gsv, s + n1, q) == str_body_end(gsv, c.i as int, q),
        decreases gs@.len() - c.i,
    {
        let ghost i = c.i as int;
        let is_backslash = crate::chars::g_is(gs[c.i].as_str(), '\\');
        proof {
            assert(gsv[i] == gs@[i]@);
            assert(gsv[i] != q);
        }
        if is_backslash && is_double {
            proof {
                assert(str_body_end(gsv, i, q) == if i + 1 >= gsv.len() {
                    gsv.len() as int
                } else {
                    str_body_end(gsv, i + 2, q)
                });
            }
            c = advance(gs, c);
            if c.i < gs.len() {
                c = advance(gs, c);
            }
        } else {
            proof {
                assert(!(gsv[i] == seq!['\\'] && q == seq!['"']));
                assert(str_body_end(gsv, i, q) == str_body_end(gsv, i + 1, q));
            }
            c = advance(gs, c);
        }
    }
    let ghost b = str_body_end(gsv, s + n1, q);
    if c.i >= gs.len() {
        proof {
            assert(b == gsv.len() as int);
        }
        return (TokenType::Error(ScanError::UnterminatedString, pos), c);
    }
    proof {
        assert(gsv[c.i as int] == q);
        assert(b == c.i as int);
    }
    c = advance(gs, c);
    // closing quotes
    let mut n2: usize = 1;
    while n2 < 3 && c.i < gs.len() && crate::chars::g_is(gs[c.i].as_str(), qc)
        invariant
            gs_wf(gsv),
            gsv == view_gs(gs@),
            cursor_wf(gsv, c),
            1 <= n2 <= 3,
            c.i as int == b + n2,
            b + n2 <= gsv.len(),
            q == seq![qc],
            (n2 - 1) + count_quotes(gsv, c.i as int, q, 3 - n2) == count_quotes(gsv, b + 1, q, 2),
        decreases 3 - n2,
    {
        c = advance(gs, c);
        n2 = n2 + 1;
    }
    proof {
        assert(count_quotes(gsv, c.i as int, q, 3 - n2) == 0);
        assert(n2 - 1 == count_quotes(gsv, b + 1, q, 2));
    }
    if n2 == 2 {
        return (TokenType::Error(ScanError::IncorrectQuoteNumber, pos), c);
    }
    let qt = if n2 == 1 && !is_double {
        QuoteType::Single
    } else if n2 == 1 {
        QuoteType::Double
    } else if !is_double {
        QuoteType::TripleSingle
    } else {
        QuoteType::TripleDouble
    };
    (TokenType::String(qt), c)
}


/// A single-cluster token.
fn single_token(gs: &Vec<String>, c: Cursor, ty: TokenType, pos: Pos) -> (r: (Token, Cursor))
    requires
        gs_wf(view_gs(gs@)),
        cursor_wf(view_gs(gs@), c),
        (c.i as int) < gs@.len(),
    ensures
        r.0.type_ == ty,
        r.0.lexeme@ == cat(view_gs(gs@), c.i as int, c.i + 1),
        r.0.pos == pos,
        r.1.i == c.i + 1,
        cursor_wf(view_gs(gs@), r.1),
{
    let ghost gsv = view_gs(gs@);
    let lexeme = gs[c.i].clone();
    proof {
        assert(gsv.subrange(c.i as int, c.i + 1) =~= seq![gsv[c.i as int]]);
        seq![gsv[c.i as int]].lemma_flatten_one_element();
        assert(gsv[c.i as int] == gs@[c.i as int]@);
    }
    let c2 = advance(gs, c);
    (Token { lexeme, type_: ty, pos }, c2)
}

/// Scans the token that starts at or after the cursor and returns it with
/// the cursor after it, exactly as the token model states.
#[verifier::rlimit(60)]
fn scan_token(gs: &Vec<String>, c0: Cursor) -> (r: (Token, Cursor))
    requires
        gs_wf(view_gs(gs@)),
        cursor_wf(view_gs(gs@), c0),
    ensures
        crate::token::token_matches(r.0, model_token(view_gs(gs@), c0.i as int)),
        r.1.i as int == next_index(view_gs(gs@), c0.i as int),
        cursor_wf(view_gs(gs@), r.1),
        c0.i <= r.1.i <= gs@.len(),
{
    let ghost gsv = view_gs(gs@);
    proof {
        lemma_next_index(gsv, c0.i as int);
    }
    let c = skip_to_token(gs, c0);
    let ghost start = c.i as int;
    let pos = Pos { line: c.line, col: c.col, byte: c.byte };
    proof {
        lemma_line_col_bounds(gsv, start);
        lemma_byte_at_nonneg(gsv, start);
        assert(pos == pos_at(gsv, start));
    }
    if c.i >= gs.len() {
        return (Token { lexeme: String::new(), type_: TokenType::Eof, pos }, c);
    }
    proof {
        assert(gsv[start] == gs@[start]@);
        assert(gsv.subrange(start, start + 1) =~= seq![gsv[start]]);
        seq![gsv[start]].lemma_flatten_one_element();
    }
    if crate::chars::g_is(gs[c.i].as_str(), '+') {
        return single_token(gs, c, TokenType::Plus, pos);
    }
    if crate::chars::g_is(gs[c.i].as_str(), '-') {
        return single_token(gs, c, TokenType::Minus, pos);
    }
    if crate::chars::g_is(gs[c.i].as_str(), '{') {
        return single_token(gs, c, TokenType::LeftBrace, pos);
    }
    if crate::chars::g_is(gs[c.i].as_str(), '}') {
        return single_token(gs, c, TokenType::RightBrace, pos);
    }
    if crate::chars::g_is(gs[c.i].as_str(), ',') {
        return single_token(gs, c, TokenType::Comma, pos);
    }
    if crate::chars::g_is(gs[c.i].as_str(), '.') {
        return single_token(gs, c, TokenType::Dot, pos);
    }
    if crate::chars::g_is(gs[c.i].as_str(), '=') {
        return single_token(gs, c, TokenType::Equals, pos);
    }
    if crate::chars::g_is(gs[c.i].as_str(), '[') {
        return single_token(gs, c, TokenType::LeftBracket, pos);
    }
    if crate::chars::g_is(gs[c.i].as_str(), ']') {
        return single_token(gs, c, TokenType::RightBracket, pos);
    }
    if crate::chars::is_digit(gs[c.i].as_str(), 10) {
        let e = run_end_x(gs, c.i + 1);
        let lexeme = lexeme_between(gs, c.i, e);
        let chars = chars_of(lexeme.as_str());
        proof {
            lemma_cat_bytes(gsv, start, e as int);
            crate::unicode::lemma_encode_len_bounds(cat(gsv, start, e as int));
            crate::unicode::lemma_byte_at_mono(gsv, e as int, gsv.len() as int);
            lemma_byte_at_nonneg(gsv, start);
        }
        let ty = classify_num_x(&lexeme, &chars, pos);
        let c2 = advance_to(gs, c, e);
        return (Token { lexeme, type_: ty, pos }, c2);
    }
    let is_dq = crate::chars::g_is(gs[c.i].as_str(), '"');
    let is_sq = crate::chars::g_is(gs[c.i].as_str(), '\'');
    if is_dq || is_sq {
        let (ty, c2) = scan_string_x(gs, c, pos);
        let lexeme = lexeme_between(gs, c.i, c2.i);
        return (Token { lexeme, type_: ty, pos }, c2);
    }
    let e = ident_end_x(gs, c.i + 1);
    let lexeme = lexeme_between(gs, c.i, e);
    let chars = chars_of(lexeme.as_str());
    let ty = if is_true_lex(&chars) {
        TokenType::Boolean(true)
    } else if is_false_lex(&chars) {
        TokenType::Boolean(false)
    } else {
        TokenType::Ident
    };
    let c2 = advance_to(gs, c, e);
    (Token { lexeme, type_: ty, pos }, c2)
}

/// The scanner: produces the token model's tokens one at a time, with
/// arbitrary-depth lookahead.  `Eof` is sticky.
pub struct Scanner {
    gs: Vec<String>,
    c: Cursor,
}

impl Scanner {
    /// The document's cluster sequences.
    pub closed spec fn gsv(&self) -> Seq<Seq<char>> {
        view_gs(self.gs@)
    }

    /// The cluster index of the next unread token.
    pub closed spec fn cur(&self) -> int {
        self.c.i as int
    }

    /// The scanner's invariant.
    pub closed spec fn wf(&self) -> bool {
        gs_wf(self.gsv()) && cursor_wf(self.gsv(), self.c)
    }

    /// The scanner's position never passes the end of the input.
    pub proof fn lemma_wf(&self)
        requires
            self.wf(),
        ensures
            0 <= self.cur() <= self.gsv().len(),
            gs_wf(self.gsv()),
    {
    }

    /// A fresh scanner over `source`, positioned at its start.
    ///
    /// The length bound keeps every byte offset comfortably inside
    /// `usize`.
    pub fn new(source: &str) -> (r: Scanner)
        requires
            source@.len() < usize::MAX / 16,
        ensures
            r.wf(),
            r.gsv() == crate::unicode::graphemes_of(source@),
            r.gsv().flatten() == source@,
            r.cur() == 0,
            byte_at(r.gsv(), r.gsv().len() as int) == vstd::utf8::encode_utf8(source@).len(),
    {
        let gs = crate::unicode::split_graphemes(source);
        let ghost gsv = view_gs(gs@);
        proof {
            crate::unicode::lemma_byte_at_flatten(gsv, gsv.len() as int);
            assert(gsv.subrange(0, gsv.len() as int) =~= gsv);
            crate::unicode::lemma_encode_len_bounds(source@);
            assert(forall|k: int| 0 <= k < gsv.len() ==> #[trigger] gsv[k].len() > 0) by {
                assert(forall|k: int|
                    0 <= k < gs@.len() ==> #[trigger] gs@[k]@.len() > 0);
                assert(forall|k: int| 0 <= k < gsv.len() ==> gsv[k] == #[trigger] gs@[k]@);
            }
        }
        Scanner { gs, c: Cursor { i: 0, line: 1, col: 0, byte: 0 } }
    }

    /// Reads the next token and advances past it.
    pub fn next_token(&mut self) -> (t: Token)
        requires
            old(self).wf(),
        ensures
            final(self).wf(),
            final(self).gsv() == old(self).gsv(),
            crate::token::token_matches(t, model_token(old(self).gsv(), old(self).cur())),
            final(self).cur() == next_index(old(self).gsv(), old(self).cur()),
            old(self).cur() <= final(self).cur() <= old(self).gsv().len(),
    {
        let (t, c2) = scan_token(&self.gs, self.c);
        self.c = c2;
        t
    }

    /// The next token, without consuming it.
    pub fn peek_token(&self) -> (t: Token)
        requires
            self.wf(),
        ensures
            crate::token::token_matches(t, model_token(self.gsv(), self.cur())),
    {
        self.peek_nth(0)
    }

    /// The `n`-th token ahead, without consuming anything; `peek_nth(0)`
    /// is the next token.
    pub fn peek_nth(&self, n: usize) -> (t: Token)
        requires
            self.wf(),
        ensures
            crate::token::token_matches(
                t,
                model_token(self.gsv(), nth_index(self.gsv(), self.cur(), n as nat)),
            ),
    {
        let ghost gsv = self.gsv();
        let mut c = self.c;
        let mut k: usize = 0;
        while k < n
            invariant
                gs_wf(gsv),
                gsv == view_gs(self.gs@),
                cursor_wf(gsv, c),
                k <= n,
                c.i as int == nth_index(gsv, self.cur(), k as nat),
            decreases n - k,
        {
            let (_, c2) = scan_token(&self.gs, c);
            c = c2;
            k = k + 1;
        }
        let (t, _) = scan_token(&self.gs, c);
        t
    }

    /// Whether the input's clusters are exhausted once the next token has
    /// been read.
    pub fn is_at_end(&self) -> (r: bool)
        requires
            self.wf(),
        ensures
            r == (next_index(self.gsv(), self.cur()) == self.gsv().len()),
    {
        let (_, c2) = scan_token(&self.gs, self.c);
        c2.i == self.gs.len()
    }
}

/// Tokenizes the whole document eagerly: exactly the token stream's
/// tokens up to `Eof`, or its first lexical error at that error's
/// position.  Succeeds exactly when the token stream reaches `Eof` with
/// no error token, which is also what a successful `parse` guarantees of
/// its input.
pub fn scan(doc: &str) -> (r: Result<Vec<Token>, Error>)
    requires
        doc@.len() < usize::MAX / 16,
    ensures
        r is Ok <==> stream_ok(crate::unicode::graphemes_of(doc@), 0),
        r matches Ok(tokens) ==> {
            let models = token_seq(crate::unicode::graphemes_of(doc@), 0);
            &&& tokens@.len() == models.len()
            &&& forall|k: int|
                0 <= k < models.len() ==> crate::token::token_matches(
                    #[trigger] tokens@[k],
                    models[k],
                )
        },
        r matches Err(e) ==> (e matches Error::Scan { error, position } && first_error(
            crate::unicode::graphemes_of(doc@),
            0,
        ) == Some((error, position))),
{
    let ghost gsv = crate::unicode::graphemes_of(doc@);
    let mut scanner = Scanner::new(doc);
    let mut tokens: Vec<Token> = Vec::new();
    loop
        invariant
            gsv == crate::unicode::graphemes_of(doc@),
            scanner.wf(),
            scanner.gsv() == gsv,
            0 <= scanner.cur() <= gsv.len(),
            stream_ok(gsv, scanner.cur()) <==> stream_ok(gsv, 0),
            first_error(gsv, scanner.cur()) == first_error(gsv, 0),
            tokens@.len() + token_seq(gsv, scanner.cur()).len() == token_seq(gsv, 0).len(),
            forall|k: int|
                0 <= k < tokens@.len() ==> crate::token::token_matches(
                    #[trigger] tokens@[k],
                    token_seq(gsv, 0)[k],
                ),
            forall|k: int|
                0 <= k < token_seq(gsv, scanner.cur()).len() ==> token_seq(gsv, 0)[tokens@.len()
                    + k] == #[trigger] token_seq(gsv, scanner.cur())[k],
        decreases gsv.len() - scanner.cur(),
    {
        let ghost at = scanner.cur();
        proof {
            lemma_next_index(gsv, at);
            lemma_stream_ok_step(gsv, at);
        }
        let token = scanner.next_token();
        match token.type_ {
            TokenType::Error(error, _) => {
                return Err(Error::Scan { error, position: token.pos });
            },
            TokenType::Eof => {
                return Ok(tokens);
            },
            _ => {
                let ghost nxt = next_index(gsv, at);
                let ghost before = tokens@;
                proof {
                    assert(token_seq(gsv, at) == seq![model_token(gsv, at)] + token_seq(gsv, nxt));
                }
                tokens.push(token);
                proof {
                    assert forall|k: int| 0 <= k < tokens@.len() implies crate::token::token_matches(
                        #[trigger] tokens@[k],
                        token_seq(gsv, 0)[k],
                    ) by {
                        if k < before.len() {
                            assert(tokens@[k] == before[k]);
                        } else {
                            assert(tokens@[k] == token);
                            assert(token_seq(gsv, 0)[before.len() as int] == token_seq(gsv, at)[0]);
                            assert(token_seq(gsv, at)[0] == model_token(gsv, at));
                        }
                    }
                    assert forall|k: int|
                        0 <= k < token_seq(gsv, nxt).len() implies token_seq(gsv, 0)[tokens@.len()
                        + k] == #[trigger] token_seq(gsv, nxt)[k] by {
                        assert(token_seq(gsv, 0)[before.len() as int + (k + 1)] == token_seq(
                            gsv,
                            at,
                        )[k + 1]);
                        assert(token_seq(gsv, at)[k + 1] == token_seq(gsv, nxt)[k]);
                    }
                }
            },
        }
    }
}

} // verus!
