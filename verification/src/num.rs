//! Numeric lexemes: decimal integers, based integers, and the shape of
//! float literals.  No float value is ever computed; the scanner only
//! decides whether a lexeme has float shape.

use vstd::prelude::*;

use crate::chars::{digit_val, is_digit_char};

verus! {

/// Whether `s` is a non-empty run of decimal digits.
pub open spec fn spec_is_digits(s: Seq<char>) -> bool {
    s.len() > 0 && forall|k: int| 0 <= k < s.len() ==> is_digit_char(#[trigger] s[k], 10)
}

/// The value of a run of decimal digits, most significant first.
pub open spec fn spec_dec_val(s: Seq<char>) -> int
    decreases s.len(),
{
    if s.len() == 0 {
        0
    } else {
        spec_dec_val(s.drop_last()) * 10 + digit_val(s.last())
    }
}

/// What parsing `s` as an unsigned 32-bit decimal yields: digits only,
/// value within range.
pub open spec fn spec_dec_u32(s: Seq<char>) -> Option<u32> {
    if spec_is_digits(s) && spec_dec_val(s) <= u32::MAX {
        Some(spec_dec_val(s) as u32)
    } else {
        None
    }
}

/// What parsing `s` as a non-negative 64-bit decimal yields: digits only,
/// value within `i64` range.
pub open spec fn spec_dec_i64(s: Seq<char>) -> Option<i64> {
    if spec_is_digits(s) && spec_dec_val(s) <= i64::MAX {
        Some(spec_dec_val(s) as i64)
    } else {
        None
    }
}

/// A longer digit run never has a smaller value.
proof fn lemma_dec_val_prefix_le(s: Seq<char>, i: int)
    requires
        0 <= i <= s.len(),
        forall|k: int| 0 <= k < s.len() ==> is_digit_char(#[trigger] s[k], 10),
    ensures
        spec_dec_val(s.subrange(0, i)) <= spec_dec_val(s),
        spec_dec_val(s) >= 0,
    decreases s.len() - i,
{
    lemma_dec_val_nonneg(s);
    if i == s.len() {
        assert(s.subrange(0, i) =~= s);
    } else {
        let t = s.subrange(0, i + 1);
        assert(t.drop_last() =~= s.subrange(0, i));
        lemma_dec_val_nonneg(s.subrange(0, i));
        assert(digit_val(t.last()) >= 0);
        assert(spec_dec_val(s.subrange(0, i)) <= spec_dec_val(t));
        lemma_dec_val_prefix_le(s, i + 1);
    }
}

proof fn lemma_dec_val_nonneg(s: Seq<char>)
    ensures
        spec_dec_val(s) >= 0 || exists|k: int|
            0 <= k < s.len() && !is_digit_char(#[trigger] s[k], 10),
    decreases s.len(),
{
    if s.len() > 0 {
        lemma_dec_val_nonneg(s.drop_last());
        if forall|k: int| 0 <= k < s.len() ==> is_digit_char(#[trigger] s[k], 10) {
            assert(forall|k: int|
                0 <= k < s.drop_last().len() ==> is_digit_char(#[trigger] s.drop_last()[k], 10));
            assert(is_digit_char(s.last(), 10));
            assert(digit_val(s.last()) >= 0);
        }
    }
}

/// Parses a non-empty run of decimal digits as `u32`; `None` when a
/// character is not a digit or the value does not fit.
pub fn dec_u32(s: &Vec<char>) -> (r: Option<u32>)
    ensures
        r == spec_dec_u32(s@),
{
    if s.len() == 0 {
        return None;
    }
    let mut acc: u64 = 0;
    let mut i: usize = 0;
    while i < s.len()
        invariant
            0 <= i <= s@.len(),
            forall|k: int| 0 <= k < i ==> is_digit_char(#[trigger] s@[k], 10),
            acc == spec_dec_val(s@.subrange(0, i as int)),
            acc <= 0xffff_ffff * 10 + 9,
        decreases s@.len() - i,
    {
        let c = s[i];
        if !crate::chars::char_is_digit(c, 10) {
            return None;
        }
        if acc > 0xffff_ffff {
            proof {
                if spec_is_digits(s@) {
                    lemma_dec_val_prefix_le(s@, i as int);
                }
            }
            return None;
        }
        let d = (c as u32) - 48;
        proof {
            assert(s@.subrange(0, i + 1).drop_last() =~= s@.subrange(0, i as int));
        }
        acc = acc * 10 + (d as u64);
        i = i + 1;
    }
    proof {
        assert(s@.subrange(0, i as int) =~= s@);
    }
    if acc > 0xffff_ffff {
        None
    } else {
        Some(acc as u32)
    }
}

/// Parses a non-empty run of decimal digits as a non-negative `i64`;
/// `None` when a character is not a digit or the value does not fit.
pub fn dec_i64(s: &Vec<char>) -> (r: Option<i64>)
    ensures
        r == spec_dec_i64(s@),
{
    if s.len() == 0 {
        return None;
    }
    let mut acc: u128 = 0;
    let mut i: usize = 0;
    while i < s.len()
        invariant
            0 <= i <= s@.len(),
            forall|k: int| 0 <= k < i ==> is_digit_char(#[trigger] s@[k], 10),
            acc == spec_dec_val(s@.subrange(0, i as int)),
            acc <= 0x7fff_ffff_ffff_ffff * 10 + 9,
        decreases s@.len() - i,
    {
        let c = s[i];
        if !crate::chars::char_is_digit(c, 10) {
            return None;
        }
        if acc > 0x7fff_ffff_ffff_ffff {
            proof {
                if spec_is_digits(s@) {
                    lemma_dec_val_prefix_le(s@, i as int);
                }
            }
            return None;
        }
        let d = (c as u32) - 48;
        proof {
            assert(s@.subrange(0, i + 1).drop_last() =~= s@.subrange(0, i as int));
        }
        acc = acc * 10 + (d as u128);
        i = i + 1;
    }
    proof {
        assert(s@.subrange(0, i as int) =~= s@);
    }
    if acc > 0x7fff_ffff_ffff_ffff {
        None
    } else {
        Some(acc as i64)
    }
}

/// The characters of `s` from `i` on, with every underscore removed.
pub open spec fn spec_strip_us_from(s: Seq<char>, i: int) -> Seq<char>
    decreases s.len() - i,
{
    if i < 0 || i >= s.len() {
        Seq::<char>::empty()
    } else if s[i] == '_' {
        spec_strip_us_from(s, i + 1)
    } else {
        seq![s[i]] + spec_strip_us_from(s, i + 1)
    }
}

/// `s` with every underscore removed.
pub open spec fn spec_strip_us(s: Seq<char>) -> Seq<char> {
    spec_strip_us_from(s, 0)
}

/// The stripped form holds no underscore.
pub proof fn lemma_strip_us_no_us(s: Seq<char>, i: int)
    ensures
        forall|k: int|
            0 <= k < spec_strip_us_from(s, i).len() ==> #[trigger] spec_strip_us_from(s, i)[k]
                != '_',
    decreases s.len() - i,
{
    if 0 <= i < s.len() {
        lemma_strip_us_no_us(s, i + 1);
        let r = spec_strip_us_from(s, i);
        let rest = spec_strip_us_from(s, i + 1);
        if s[i] != '_' {
            assert forall|k: int| 0 <= k < r.len() implies r[k] != '_' by {
                if k == 0 {
                    assert(r[k] == s[i]);
                } else {
                    assert(r[k] == rest[k - 1]);
                }
            }
        }
    }
}

/// Stripping a sequence without underscores returns it unchanged.
pub proof fn lemma_strip_us_clean(s: Seq<char>, i: int)
    requires
        0 <= i <= s.len(),
        forall|k: int| 0 <= k < s.len() ==> #[trigger] s[k] != '_',
    ensures
        spec_strip_us_from(s, i) == s.subrange(i, s.len() as int),
    decreases s.len() - i,
{
    if i >= s.len() {
        assert(s.subrange(i, s.len() as int) =~= Seq::<char>::empty());
    } else {
        lemma_strip_us_clean(s, i + 1);
        assert(seq![s[i]] + s.subrange(i + 1, s.len() as int) =~= s.subrange(i, s.len() as int));
    }
}

/// Stripping underscores twice is the same as stripping them once.
pub proof fn lemma_strip_us_idempotent(s: Seq<char>)
    ensures
        spec_strip_us(spec_strip_us(s)) == spec_strip_us(s),
{
    let t = spec_strip_us(s);
    lemma_strip_us_no_us(s, 0);
    lemma_strip_us_clean(t, 0);
    assert(t.subrange(0, t.len() as int) =~= t);
}

/// Removes every underscore from `s`.
pub fn strip_us(s: &Vec<char>) -> (r: Vec<char>)
    ensures
        r@ == spec_strip_us(s@),
{
    let mut r: Vec<char> = Vec::new();
    let mut i: usize = 0;
    while i < s.len()
        invariant
            0 <= i <= s@.len(),
            spec_strip_us(s@) == r@ + spec_strip_us_from(s@, i as int),
        decreases s@.len() - i,
    {
        let c = s[i];
        if c != '_' {
            proof {
                assert(r@ + (seq![c] + spec_strip_us_from(s@, i + 1)) =~= r@.push(c)
                    + spec_strip_us_from(s@, i + 1));
            }
            r.push(c);
        }
        i = i + 1;
    }
    proof {
        assert(r@ + spec_strip_us_from(s@, i as int) =~= r@);
    }
    r
}

/// The first index at or after `i` whose character is not a decimal digit.
pub open spec fn spec_digits_end(s: Seq<char>, i: int) -> int
    decreases s.len() - i,
{
    if i < 0 || i >= s.len() {
        i
    } else if is_digit_char(s[i], 10) {
        spec_digits_end(s, i + 1)
    } else {
        i
    }
}

/// Whether `s` has the shape of a float literal that begins with a digit:
/// `digits [ '.' digits? ] [ ('e'|'E') sign? digits ]`.
pub open spec fn spec_is_float_lit(s: Seq<char>) -> bool {
    let a = spec_digits_end(s, 0);
    if a == 0 {
        false
    } else {
        let b = if a < s.len() && s[a] == '.' {
            spec_digits_end(s, a + 1)
        } else {
            a
        };
        if b == s.len() {
            true
        } else if s[b] == 'e' || s[b] == 'E' {
            let c0 = if b + 1 < s.len() && (s[b + 1] == '+' || s[b + 1] == '-') {
                b + 2
            } else {
                b + 1
            };
            let c = spec_digits_end(s, c0);
            c > c0 && c == s.len()
        } else {
            false
        }
    }
}

/// The first index at or after `from` whose character is not a digit.
pub fn digits_end(s: &Vec<char>, from: usize) -> (r: usize)
    requires
        from <= s@.len(),
    ensures
        r == spec_digits_end(s@, from as int),
        from <= r <= s@.len(),
{
    let mut i: usize = from;
    while i < s.len()
        invariant
            from <= i <= s@.len(),
            spec_digits_end(s@, from as int) == spec_digits_end(s@, i as int),
        decreases s@.len() - i,
    {
        if !crate::chars::char_is_digit(s[i], 10) {
            return i;
        }
        i = i + 1;
    }
    i
}

/// Whether `s` has the shape of a digit-leading float literal.
pub fn is_float_lit(s: &Vec<char>) -> (r: bool)
    ensures
        r == spec_is_float_lit(s@),
{
    let a = digits_end(s, 0);
    if a == 0 {
        return false;
    }
    let b = if a < s.len() && s[a] == '.' {
        digits_end(s, a + 1)
    } else {
        a
    };
    if b == s.len() {
        return true;
    }
    if s[b] == 'e' || s[b] == 'E' {
        let c0 = if b + 1 < s.len() && (s[b + 1] == '+' || s[b + 1] == '-') {
            b + 2
        } else {
            b + 1
        };
        if c0 > s.len() {
            return false;
        }
        let c = digits_end(s, c0);
        c > c0 && c == s.len()
    } else {
        false
    }
}

/// The decimal digit character for `d`.
pub open spec fn digit_to_char(d: int) -> char {
    if d == 0 {
        '0'
    } else if d == 1 {
        '1'
    } else if d == 2 {
        '2'
    } else if d == 3 {
        '3'
    } else if d == 4 {
        '4'
    } else if d == 5 {
        '5'
    } else if d == 6 {
        '6'
    } else if d == 7 {
        '7'
    } else if d == 8 {
        '8'
    } else {
        '9'
    }
}

/// The base-10 digit string of `n >= 0`, most significant digit first.
pub open spec fn spec_dec_digits(n: int) -> Seq<char>
    decreases n,
{
    if n < 10 {
        seq![digit_to_char(if n < 0 { 0 } else { n % 10 })]
    } else {
        spec_dec_digits(n / 10).push(digit_to_char(n % 10))
    }
}

/// Integer round trip: reading back the base-10 digit string of any
/// token-representable integer yields the integer itself, so base-10
/// reformatting of an integer lexeme preserves the parsed value.
pub proof fn lemma_dec_round_trip(n: i64)
    requires
        n >= 0,
    ensures
        spec_dec_i64(spec_dec_digits(n as int)) == Some(n),
{
    lemma_dec_digits_val(n as int);
}

proof fn lemma_dec_digits_val(n: int)
    requires
        n >= 0,
    ensures
        spec_is_digits(spec_dec_digits(n)),
        spec_dec_val(spec_dec_digits(n)) == n,
    decreases n,
{
    if n < 10 {
        let s = spec_dec_digits(n);
        assert(s == seq![digit_to_char(n % 10)]);
        assert(n % 10 == n);
        assert(digit_val(digit_to_char(n)) == n);
        assert(s.drop_last() =~= Seq::<char>::empty());
        assert(spec_dec_val(Seq::<char>::empty()) == 0);
        assert(s.last() == digit_to_char(n));
        assert(spec_dec_val(s) == spec_dec_val(s.drop_last()) * 10 + digit_val(s.last()));
    } else {
        lemma_dec_digits_val(n / 10);
        let s = spec_dec_digits(n);
        assert(s.drop_last() =~= spec_dec_digits(n / 10));
        assert(s.last() == digit_to_char(n % 10));
        assert(digit_val(digit_to_char(n % 10)) == n % 10);
        assert(spec_dec_val(s) == spec_dec_val(s.drop_last()) * 10 + digit_val(s.last()));
        assert(spec_dec_val(s) == (n / 10) * 10 + n % 10);
        assert((n / 10) * 10 + n % 10 == n) by (nonlinear_arith);
        assert(forall|k: int| 0 <= k < s.len() ==> is_digit_char(#[trigger] s[k], 10)) by {
            assert(forall|k: int|
                0 <= k < s.len() - 1 ==> s[k] == #[trigger] spec_dec_digits(n / 10)[k]);
            assert(is_digit_char(s[s.len() - 1], 10));
        }
    }
}


/// Ten to the `e`-th power.
pub open spec fn spec_pow10(e: int) -> int
    decreases e,
{
    if e <= 0 {
        1
    } else {
        10 * spec_pow10(e - 1)
    }
}

/// Powers of ten are positive and monotone.
pub proof fn lemma_pow10_mono(a: int, b: int)
    requires
        0 <= a <= b,
    ensures
        1 <= spec_pow10(a) <= spec_pow10(b),
    decreases b,
{
    if a < b {
        lemma_pow10_mono(a, b - 1);
    } else if a > 0 {
        lemma_pow10_mono(0, a - 1);
    }
}

/// One step of the power recurrence.
pub proof fn lemma_pow10_mul(e: int)
    requires
        e >= 0,
    ensures
        spec_pow10(e + 1) == spec_pow10(e) * 10,
    decreases e,
{
    if e > 0 {
        lemma_pow10_mul(e - 1);
    }
}

/// The eighth and ninth powers of ten, concretely.
pub proof fn lemma_pow10_concrete()
    ensures
        spec_pow10(8) == 100_000_000,
        spec_pow10(9) == 1_000_000_000,
{
    reveal_with_fuel(spec_pow10, 11);
}

/// Every character before a digit run's end is a digit.
pub proof fn lemma_digits_end_digits(s: Seq<char>, i: int)
    ensures
        forall|k: int| i <= k < spec_digits_end(s, i) ==> is_digit_char(#[trigger] s[k], 10),
        i <= spec_digits_end(s, i) || i >= s.len(),
        spec_digits_end(s, i) <= s.len() || i > s.len(),
    decreases s.len() - i,
{
    if 0 <= i < s.len() && is_digit_char(s[i], 10) {
        lemma_digits_end_digits(s, i + 1);
    }
}

} // verus!
