//! Calendar dates, times of day, time-zone offsets and their parsers.

use vstd::prelude::*;

use crate::num::spec_dec_u32;
use crate::token::ScanError;

verus! {

/// A calendar date.
#[derive(Debug, PartialEq, Eq, Structural, Clone, Copy)]
pub struct Date {
    pub year: u16,
    pub month: u8,
    pub day: u8,
}

/// A time of day with nanosecond precision.
#[derive(Debug, PartialEq, Eq, Structural, Clone, Copy)]
pub struct Time {
    pub hour: u8,
    pub minute: u8,
    pub second: u8,
    pub nanosecond: u32,
}

/// A time-zone designation: UTC, or a signed count of minutes in
/// `[-1440, 1440]`.
#[derive(Debug, PartialEq, Eq, Structural, Clone, Copy)]
pub enum Offset {
    Z,
    Minutes(i16),
}

/// A date, a time, or both, with an optional offset.  The parser emits
/// exactly one of: date+time+offset, date+time, date alone, time with an
/// optional offset.
#[derive(Debug, PartialEq, Eq, Structural, Clone, Copy)]
pub struct Datetime {
    pub date: Option<Date>,
    pub time: Option<Time>,
    pub offset: Option<Offset>,
}

/// The Gregorian leap-year rule: divisible by 4 and either not divisible
/// by 100 or divisible by 400.
pub open spec fn spec_is_leap_year(year: int) -> bool {
    year % 4 == 0 && (year % 100 != 0 || year % 400 == 0)
}

/// Whether `(year, month, day)` names a real calendar date with
/// `year <= 9999`.
pub open spec fn spec_valid_date(year: int, month: int, day: int) -> bool {
    &&& year <= 9999
    &&& 1 <= month <= 12
    &&& 1 <= day <= 31
    &&& !((month == 4 || month == 6 || month == 9 || month == 11) && day == 31)
    &&& !(month == 2 && day >= 30)
    &&& !(month == 2 && day == 29 && !spec_is_leap_year(year))
}

/// The dash-separated fields of `s` from index `i` on, `acc` being the
/// partial field read so far.  Mirrors `str::split('-')`: empty fields
/// are kept, and a trailing dash yields a final empty field.
pub open spec fn spec_split_dash_from(s: Seq<char>, acc: Seq<char>, i: int) -> Seq<Seq<char>>
    decreases s.len() - i,
{
    if i < 0 || i >= s.len() {
        seq![acc]
    } else if s[i] == '-' {
        seq![acc] + spec_split_dash_from(s, Seq::<char>::empty(), i + 1)
    } else {
        spec_split_dash_from(s, acc.push(s[i]), i + 1)
    }
}

/// The dash-separated fields of `s`, in order, separators excluded.
pub open spec fn spec_split_dash(s: Seq<char>) -> Seq<Seq<char>> {
    spec_split_dash_from(s, Seq::<char>::empty(), 0)
}

/// What parsing `s` as a date yields: three dash-separated decimal
/// fields naming a valid calendar date, or nothing.
pub open spec fn spec_date_parse(s: Seq<char>) -> Option<Date> {
    let parts = spec_split_dash(s);
    if parts.len() == 3 && spec_dec_u32(parts[0]) is Some && spec_dec_u32(parts[1]) is Some
        && spec_dec_u32(parts[2]) is Some {
        let y = spec_dec_u32(parts[0])->0 as int;
        let m = spec_dec_u32(parts[1])->0 as int;
        let d = spec_dec_u32(parts[2])->0 as int;
        if spec_valid_date(y, m, d) {
            Some(Date { year: y as u16, month: m as u8, day: d as u8 })
        } else {
            None
        }
    } else {
        None
    }
}

/// Splits `s` on `'-'` as [`spec_split_dash`] does.
fn split_dash(s: &Vec<char>) -> (r: Vec<Vec<char>>)
    ensures
        r@.map_values(|p: Vec<char>| p@) == spec_split_dash(s@),
{
    let mut parts: Vec<Vec<char>> = Vec::new();
    let mut cur: Vec<char> = Vec::new();
    let mut i: usize = 0;
    while i < s.len()
        invariant
            0 <= i <= s@.len(),
            spec_split_dash(s@) == parts@.map_values(|p: Vec<char>| p@) + spec_split_dash_from(
                s@,
                cur@,
                i as int,
            ),
        decreases s@.len() - i,
    {
        let c = s[i];
        if c == '-' {
            proof {
                let mapped = parts@.map_values(|p: Vec<char>| p@);
                assert(mapped + (seq![cur@] + spec_split_dash_from(
                    s@,
                    Seq::<char>::empty(),
                    i + 1,
                )) =~= (parts@.push(cur)).map_values(|p: Vec<char>| p@) + spec_split_dash_from(
                    s@,
                    Seq::<char>::empty(),
                    i + 1,
                ));
            }
            parts.push(cur);
            cur = Vec::new();
        } else {
            cur.push(c);
        }
        i = i + 1;
    }
    proof {
        assert(parts@.map_values(|p: Vec<char>| p@) + seq![cur@] =~= (parts@.push(
            cur,
        )).map_values(|p: Vec<char>| p@));
    }
    parts.push(cur);
    parts
}

impl Date {
    /// Parses `YYYY-MM-DD`.  Returns `Ok` exactly when the text is three
    /// dash-separated decimal fields that name a valid calendar date;
    /// every other text is `ScanError::InvalidDate`.
    pub fn from_str(s: &Vec<char>) -> (r: Result<Date, ScanError>)
        ensures
            match r {
                Ok(d) => spec_date_parse(s@) == Some(d),
                Err(e) => spec_date_parse(s@) is None && e == ScanError::InvalidDate,
            },
    {
        let parts = split_dash(s);
        if parts.len() != 3 {
            return Err(ScanError::InvalidDate);
        }
        proof {
            assert(parts@.map_values(|p: Vec<char>| p@)[0] == parts@[0]@);
            assert(parts@.map_values(|p: Vec<char>| p@)[1] == parts@[1]@);
            assert(parts@.map_values(|p: Vec<char>| p@)[2] == parts@[2]@);
        }
        let y = match crate::num::dec_u32(&parts[0]) {
            Some(v) => v,
            None => {
                return Err(ScanError::InvalidDate);
            },
        };
        let m = match crate::num::dec_u32(&parts[1]) {
            Some(v) => v,
            None => {
                return Err(ScanError::InvalidDate);
            },
        };
        let d = match crate::num::dec_u32(&parts[2]) {
            Some(v) => v,
            None => {
                return Err(ScanError::InvalidDate);
            },
        };
        if y > 9999 || m < 1 || m > 12 || d < 1 || d > 31 {
            return Err(ScanError::InvalidDate);
        }
        if (m == 4 || m == 6 || m == 9 || m == 11) && d == 31 {
            return Err(ScanError::InvalidDate);
        }
        if m == 2 && d >= 30 {
            return Err(ScanError::InvalidDate);
        }
        let is_leap = y % 4 == 0 && (y % 100 != 0 || y % 400 == 0);
        if m == 2 && d == 29 && !is_leap {
            return Err(ScanError::InvalidDate);
        }
        Ok(Date { year: y as u16, month: m as u8, day: d as u8 })
    }
}

/// The fields of a combined date-time as an outside parser reports them:
/// calendar fields, microseconds, and an optional time-zone offset in
/// seconds.
#[derive(Debug, PartialEq, Eq, Structural, Clone, Copy)]
pub struct DtParts {
    pub year: u16,
    pub month: u8,
    pub day: u8,
    pub hour: u8,
    pub minute: u8,
    pub second: u8,
    pub microsecond: u32,
    pub tz_offset: Option<i32>,
}

/// What `speedate::DateTime::parse_str` yields on `s`: the result depends
/// on the text alone.
pub uninterp spec fn speedate_datetime_of(s: Seq<char>) -> Option<DtParts>;

/// The documented field ranges of a parsed date-time: minute and second
/// below 60, microseconds below one million, any offset strictly within
/// one day.
pub open spec fn spec_dt_parts_bounded(p: DtParts) -> bool {
    &&& p.minute < 60
    &&& p.second < 60
    &&& p.microsecond < 1_000_000
    &&& match p.tz_offset {
        Some(sec) => -86400 < sec < 86400,
        None => true,
    }
}

/// Relies on `speedate::DateTime::parse_str`: the result is a function of
/// the text alone, and the crate documents the field ranges
/// [`spec_dt_parts_bounded`] states.
#[verifier::external_body]
pub fn speedate_parse(s: &str) -> (r: Option<DtParts>)
    ensures
        r == speedate_datetime_of(s@),
        r is Some ==> spec_dt_parts_bounded(r->0),
{
    match speedate::DateTime::parse_str(s) {
        Ok(dt) => Some(
            DtParts {
                year: dt.date.year,
                month: dt.date.month,
                day: dt.date.day,
                hour: dt.time.hour,
                minute: dt.time.minute,
                second: dt.time.second,
                microsecond: dt.time.microsecond,
                tz_offset: dt.time.tz_offset,
            },
        ),
        Err(_) => None,
    }
}

/// Truncating division by sixty, as `/` rounds toward zero.
pub open spec fn spec_div60_trunc(sec: int) -> int {
    if sec < 0 {
        -((-sec) / 60)
    } else {
        sec / 60
    }
}

/// The `Datetime` a parsed date-time denotes: nanoseconds from
/// microseconds, a zero offset rendered as `Z`, any other as whole
/// minutes.
pub open spec fn spec_datetime_of_parts(p: DtParts) -> Datetime {
    Datetime {
        date: Some(Date { year: p.year, month: p.month, day: p.day }),
        time: Some(
            Time {
                hour: p.hour,
                minute: p.minute,
                second: p.second,
                nanosecond: (p.microsecond * 1000) as u32,
            },
        ),
        offset: match p.tz_offset {
            Some(sec) => Some(
                if sec == 0 {
                    Offset::Z
                } else {
                    Offset::Minutes(spec_div60_trunc(sec as int) as i16)
                },
            ),
            None => None,
        },
    }
}

/// Builds the `Datetime` a parsed date-time denotes.
pub fn datetime_from_parts(p: DtParts) -> (r: Datetime)
    requires
        spec_dt_parts_bounded(p),
    ensures
        r == spec_datetime_of_parts(p),
{
    let offset = match p.tz_offset {
        Some(sec) => Some(
            if sec == 0 {
                Offset::Z
            } else if sec < 0 {
                Offset::Minutes(-(((-sec) / 60) as i16))
            } else {
                Offset::Minutes((sec / 60) as i16)
            },
        ),
        None => None,
    };
    Datetime {
        date: Some(Date { year: p.year, month: p.month, day: p.day }),
        time: Some(
            Time {
                hour: p.hour,
                minute: p.minute,
                second: p.second,
                nanosecond: p.microsecond * 1000,
            },
        ),
        offset,
    }
}

/// The value of two decimal digits at `i` in `s`.
pub open spec fn spec_val2(s: Seq<char>, i: int) -> int {
    crate::chars::digit_val(s[i]) * 10 + crate::chars::digit_val(s[i + 1])
}

/// Whether `s` has two decimal digits at `i`.
pub open spec fn spec_two_digits(s: Seq<char>, i: int) -> bool {
    0 <= i && i + 1 < s.len() && crate::chars::is_digit_char(s[i], 10)
        && crate::chars::is_digit_char(s[i + 1], 10)
}

/// The nanosecond count a fractional-second digit run denotes: the first
/// nine digits, zero-padded on the right to nine places.
pub open spec fn spec_frac_ns(d: Seq<char>) -> int {
    if d.len() >= 9 {
        crate::num::spec_dec_val(d.subrange(0, 9))
    } else {
        crate::num::spec_dec_val(d) * crate::num::spec_pow10(9 - d.len())
    }
}

/// The offset a trailing `Z` or `±HH:MM` denotes, if it is well-formed,
/// covers `s[i..]` exactly, and stays within one day of minutes.
pub open spec fn spec_time_offset(s: Seq<char>, i: int) -> Option<Option<Offset>> {
    if i == s.len() {
        Some(None)
    } else if s[i] == 'Z' && i + 1 == s.len() {
        Some(Some(Offset::Z))
    } else if (s[i] == '+' || s[i] == '-') && spec_two_digits(s, i + 1) && i + 3 < s.len() && s[i
        + 3] == ':' && spec_two_digits(s, i + 4) && i + 6 == s.len() {
        let mins = spec_val2(s, i + 1) * 60 + spec_val2(s, i + 4);
        if mins <= 1440 {
            Some(Some(Offset::Minutes((if s[i] == '-' {
                -mins
            } else {
                mins
            }) as i16)))
        } else {
            None
        }
    } else {
        None
    }
}

/// What parsing `s` as a time of day yields: `HH:MM:SS`, an optional
/// fractional part of at least one digit, and an optional offset; hours
/// below 24, minutes and seconds below 60.
pub open spec fn spec_time_parse(s: Seq<char>) -> Option<(Time, Option<Offset>)> {
    if s.len() >= 8 && spec_two_digits(s, 0) && s[2] == ':' && spec_two_digits(s, 3) && s[5] == ':'
        && spec_two_digits(s, 6) {
        let hh = spec_val2(s, 0);
        let mm = spec_val2(s, 3);
        let ss = spec_val2(s, 6);
        if hh <= 23 && mm <= 59 && ss <= 59 {
            let j = if s.len() > 8 && s[8] == '.' {
                crate::num::spec_digits_end(s, 9)
            } else {
                8
            };
            if s.len() > 8 && s[8] == '.' && j == 9 {
                None
            } else {
                let ns = if j > 8 {
                    spec_frac_ns(s.subrange(9, j))
                } else {
                    0
                };
                match spec_time_offset(s, j) {
                    Some(off) => Some(
                        (
                            Time {
                                hour: hh as u8,
                                minute: mm as u8,
                                second: ss as u8,
                                nanosecond: ns as u32,
                            },
                            off,
                        ),
                    ),
                    None => None,
                }
            }
        } else {
            None
        }
    } else {
        None
    }
}

/// Reads two decimal digits at `i`.
fn val2(s: &Vec<char>, i: usize) -> (r: u32)
    requires
        spec_two_digits(s@, i as int),
    ensures
        r == spec_val2(s@, i as int),
        r <= 99,
{
    let n = s.len();
    proof {
        assert(i + 1 < n);
    }
    let a = (s[i] as u32) - 48;
    let b = (s[i + 1] as u32) - 48;
    a * 10 + b
}

/// Whether `s` has two decimal digits at `i`.
fn two_digits(s: &Vec<char>, i: usize) -> (r: bool)
    requires
        i + 1 < usize::MAX,
    ensures
        r == spec_two_digits(s@, i as int),
{
    i + 1 < s.len() && crate::chars::char_is_digit(s[i], 10) && crate::chars::char_is_digit(
        s[i + 1],
        10,
    )
}

/// Parses a time of day with optional fraction and offset, as
/// [`spec_time_parse`] states.
pub fn time_parse(s: &Vec<char>) -> (r: Option<(Time, Option<Offset>)>)
    requires
        s@.len() < usize::MAX - 16,
    ensures
        r == spec_time_parse(s@),
{
    if !(s.len() >= 8 && two_digits(s, 0) && s[2] == ':' && two_digits(s, 3) && s[5] == ':'
        && two_digits(s, 6)) {
        return None;
    }
    let hh = val2(s, 0);
    let mm = val2(s, 3);
    let ss = val2(s, 6);
    if !(hh <= 23 && mm <= 59 && ss <= 59) {
        return None;
    }
    let has_frac = s.len() > 8 && s[8] == '.';
    let j = if has_frac {
        crate::num::digits_end(s, 9)
    } else {
        8
    };
    if has_frac && j == 9 {
        return None;
    }
    let ns: u32 = if j > 8 {
        proof {
            crate::num::lemma_digits_end_digits(s@, 9);
        }
        frac_ns(s, 9, j)
    } else {
        0
    };
    let off = match time_offset(s, j) {
        Some(off) => off,
        None => {
            return None;
        },
    };
    Some((Time { hour: hh as u8, minute: mm as u8, second: ss as u8, nanosecond: ns }, off))
}

/// The nanoseconds denoted by the fractional digits `s[from..to]`.
fn frac_ns(s: &Vec<char>, from: usize, to: usize) -> (r: u32)
    requires
        from < to <= s@.len(),
        forall|k: int| from <= k < to ==> crate::chars::is_digit_char(#[trigger] s@[k], 10),
    ensures
        r == spec_frac_ns(s@.subrange(from as int, to as int)),
        r < 1_000_000_000,
{
    let ghost d = s@.subrange(from as int, to as int);
    let end = if to - from >= 9 {
        from + 9
    } else {
        to
    };
    let mut acc: u32 = 0;
    let mut i: usize = from;
    while i < end
        invariant
            from <= i <= end,
            end <= to <= s@.len(),
            end - from <= 9,
            end == if to - from >= 9 {
                from + 9
            } else {
                to as int
            },
            from < to,
            forall|k: int| from <= k < to ==> crate::chars::is_digit_char(#[trigger] s@[k], 10),
            acc == crate::num::spec_dec_val(s@.subrange(from as int, i as int)),
            acc < crate::num::spec_pow10(i - from),
        decreases end - i,
    {
        let c = s[i];
        proof {
            crate::num::lemma_pow10_concrete();
            crate::num::lemma_pow10_mono(i - from, 8);
            crate::num::lemma_pow10_mul(i - from);
            assert(s@.subrange(from as int, i + 1).drop_last() =~= s@.subrange(
                from as int,
                i as int,
            ));
            assert(s@.subrange(from as int, i + 1).last() == s@[i as int]);
            assert(crate::chars::is_digit_char(s@[i as int], 10));
        }
        acc = acc * 10 + ((c as u32) - 48);
        i = i + 1;
    }
    let ghost head = s@.subrange(from as int, end as int);
    let mut e: usize = end - from;
    proof {
        assert(acc * 1 == acc);
    }
    while e < 9
        invariant
            end - from <= e <= 9,
            end - from <= 9,
            acc == crate::num::spec_dec_val(head) * crate::num::spec_pow10(e - (end - from)),
            acc < crate::num::spec_pow10(e as int),
            head == s@.subrange(from as int, end as int),
        decreases 9 - e,
    {
        proof {
            crate::num::lemma_pow10_concrete();
            crate::num::lemma_pow10_mono(e as int, 8);
            crate::num::lemma_pow10_mul(e as int);
            crate::num::lemma_pow10_mul(e - (end - from));
            let dv = crate::num::spec_dec_val(head);
            let p = crate::num::spec_pow10(e - (end - from));
            assert(dv * p * 10 == dv * (p * 10)) by (nonlinear_arith);
        }
        acc = acc * 10;
        e = e + 1;
    }
    proof {
        crate::num::lemma_pow10_concrete();
        if to - from >= 9 {
            assert(d.subrange(0, 9) =~= head);
            assert(spec_frac_ns(d) == crate::num::spec_dec_val(head));
            assert(acc == crate::num::spec_dec_val(head) * crate::num::spec_pow10(0));
        } else {
            assert(d =~= head);
            assert(d.len() == to - from);
        }
    }
    acc
}

/// Parses a trailing offset at `i`, as [`spec_time_offset`] states.
fn time_offset(s: &Vec<char>, i: usize) -> (r: Option<Option<Offset>>)
    requires
        i <= s@.len(),
        s@.len() < usize::MAX - 16,
    ensures
        r == spec_time_offset(s@, i as int),
{
    if i == s.len() {
        return Some(None);
    }
    let c = s[i];
    if c == 'Z' && i + 1 == s.len() {
        return Some(Some(Offset::Z));
    }
    if (c == '+' || c == '-') && two_digits(s, i + 1) && i + 3 < s.len() && s[i + 3] == ':'
        && two_digits(s, i + 4) && i + 6 == s.len() {
        let mins = val2(s, i + 1) * 60 + val2(s, i + 4);
        if mins <= 1440 {
            let m = mins as i16;
            return Some(Some(Offset::Minutes(if c == '-' {
                -m
            } else {
                m
            })));
        } else {
            return None;
        }
    }
    None
}

} // verus!
