//! Character and grapheme-cluster classification used by the scanner.
//!
//! The scanner works on grapheme clusters; each predicate here takes one
//! cluster as a `&str` and is specified over its sequence of `char`s.

use vstd::prelude::*;

verus! {

/// The whitespace characters the scanner skips.
pub open spec fn ws_char(c: char) -> bool {
    c == ' ' || c == '\t' || c == '\n' || c == '\u{b}' || c == '\u{c}' || c == '\r'
}

/// Whether every character of `s` is scanner whitespace.
pub open spec fn is_ws_seq(s: Seq<char>) -> bool {
    forall|k: int| 0 <= k < s.len() ==> ws_char(#[trigger] s[k])
}

/// Whether `c` is a digit of `base` (2, 8, 10 or 16; any other base has
/// no digits).  Base 16 accepts both letter cases.
pub open spec fn is_digit_char(c: char, base: int) -> bool {
    let u = c as int;
    if base == 2 {
        48 <= u <= 49
    } else if base == 8 {
        48 <= u <= 55
    } else if base == 10 {
        48 <= u <= 57
    } else if base == 16 {
        (48 <= u <= 57) || (97 <= u <= 102) || (65 <= u <= 70)
    } else {
        false
    }
}

/// The numeric value of a digit character (0-9, a-f, A-F).
pub open spec fn digit_val(c: char) -> int {
    let u = c as int;
    if 48 <= u <= 57 {
        u - 48
    } else if 97 <= u <= 102 {
        u - 87
    } else if 65 <= u <= 70 {
        u - 55
    } else {
        0
    }
}

/// Whether the single grapheme `s` is exactly one digit of `base`.
pub open spec fn spec_is_digit(s: Seq<char>, base: int) -> bool {
    s.len() == 1 && is_digit_char(s[0], base)
}

/// The grapheme boundaries that end a bare identifier.
pub open spec fn is_non_ident_seq(s: Seq<char>) -> bool {
    ||| is_ws_seq(s)
    ||| s.len() == 0
    ||| (s.len() == 1 && (s[0] == '#' || s[0] == '[' || s[0] == ']' || s[0] == '{' || s[0] == '}'
        || s[0] == ',' || s[0] == '.' || s[0] == '=' || s[0] == '"' || s[0] == '\''))
}

/// Whether the character `c` is scanner whitespace.
pub fn is_ws_char(c: char) -> (r: bool)
    ensures
        r == ws_char(c),
{
    c == ' ' || c == '\t' || c == '\n' || c == '\u{b}' || c == '\u{c}' || c == '\r'
}

/// Whether the grapheme `s` is a single digit of `base`.
pub fn is_digit(s: &str, base: usize) -> (r: bool)
    ensures
        r == spec_is_digit(s@, base as int),
{
    if s.unicode_len() != 1 {
        return false;
    }
    let c = s.get_char(0);
    char_is_digit(c, base)
}

/// Whether the character `c` is a digit of `base`.
pub fn char_is_digit(c: char, base: usize) -> (r: bool)
    ensures
        r == is_digit_char(c, base as int),
{
    let u = c as u32;
    if base == 2 {
        48 <= u && u <= 49
    } else if base == 8 {
        48 <= u && u <= 55
    } else if base == 10 {
        48 <= u && u <= 57
    } else if base == 16 {
        (48 <= u && u <= 57) || (97 <= u && u <= 102) || (65 <= u && u <= 70)
    } else {
        false
    }
}

/// The value of the digit grapheme `s` in `base`.
pub fn to_digit(s: &str, base: usize) -> (r: i64)
    requires
        spec_is_digit(s@, base as int),
    ensures
        r == digit_val(s@[0]),
{
    let c = s.get_char(0);
    char_to_digit(c)
}

/// The value of the digit character `c`.
pub fn char_to_digit(c: char) -> (r: i64)
    requires
        is_digit_char(c, 16),
    ensures
        r == digit_val(c),
{
    let u = c as u32;
    if 48 <= u && u <= 57 {
        (u - 48) as i64
    } else if 97 <= u && u <= 102 {
        (u - 87) as i64
    } else {
        (u - 55) as i64
    }
}

/// Whether every character of the grapheme `s` is whitespace.  The empty
/// string counts as whitespace.
pub fn is_whitespace(s: &str) -> (r: bool)
    ensures
        r == is_ws_seq(s@),
{
    let n = s.unicode_len();
    let mut i: usize = 0;
    while i < n
        invariant
            0 <= i <= n,
            n == s@.len(),
            forall|k: int| 0 <= k < i ==> ws_char(#[trigger] s@[k]),
        decreases n - i,
    {
        if !is_ws_char(s.get_char(i)) {
            return false;
        }
        i = i + 1;
    }
    true
}

/// Whether the grapheme `s` ends a bare identifier: whitespace, empty, or
/// one of the reserved punctuation characters.
pub fn is_non_identifier(s: &str) -> (r: bool)
    ensures
        r == is_non_ident_seq(s@),
{
    if is_whitespace(s) {
        return true;
    }
    let n = s.unicode_len();
    if n == 0 {
        return true;
    }
    if n != 1 {
        return false;
    }
    let c = s.get_char(0);
    c == '#' || c == '[' || c == ']' || c == '{' || c == '}' || c == ',' || c == '.' || c == '='
        || c == '"' || c == '\''
}

/// Whether the grapheme `s` is exactly the single character `c`.
pub fn g_is(s: &str, c: char) -> (r: bool)
    ensures
        r == (s@ == seq![c]),
{
    if s.unicode_len() == 1 {
        let r = s.get_char(0) == c;
        proof {
            if r {
                assert(s@ =~= seq![c]);
            } else {
                assert(s@ != seq![c]);
            }
        }
        r
    } else {
        proof {
            assert(s@ != seq![c]);
        }
        false
    }
}

/// Whether the grapheme `s` is the two-character sequence `"\r\n"`.
pub fn g_is_crlf(s: &str) -> (r: bool)
    ensures
        r == (s@ == seq!['\r', '\n']),
{
    if s.unicode_len() == 2 {
        let r = s.get_char(0) == '\r' && s.get_char(1) == '\n';
        proof {
            if r {
                assert(s@ =~= seq!['\r', '\n']);
            } else {
                assert(s@ != seq!['\r', '\n']);
            }
        }
        r
    } else {
        proof {
            assert(s@ != seq!['\r', '\n']);
        }
        false
    }
}

/// Whether two strings hold the same characters.
pub fn str_eq(a: &str, b: &str) -> (r: bool)
    ensures
        r == (a@ == b@),
{
    let n = a.unicode_len();
    if n != b.unicode_len() {
        proof {
            assert(a@ != b@);
        }
        return false;
    }
    let mut i: usize = 0;
    while i < n
        invariant
            0 <= i <= n,
            n == a@.len(),
            n == b@.len(),
            forall|k: int| 0 <= k < i ==> a@[k] == b@[k],
        decreases n - i,
    {
        if a.get_char(i) != b.get_char(i) {
            proof {
                assert(a@[i as int] != b@[i as int]);
            }
            return false;
        }
        i = i + 1;
    }
    proof {
        assert(a@ =~= b@);
    }
    true
}

} // verus!
