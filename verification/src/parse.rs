//! Era start dates as text: an optional `-`, then year, month and day in
//! decimal, separated by `-`.

use crate::date::EraStartDate;
use vstd::prelude::*;
use vstd::slice::slice_subrange;
use vstd::string::StringSliceAdditionalSpecFns;

verus! {

/// The byte `-`, which separates the fields and negates the year.
pub const DASH: u8 = 45;

/// The byte `+`, which may stand before the digits of a field.
pub const PLUS: u8 = 43;

/// The byte `0`.
pub const ZERO: u8 = 48;

/// Whether `b` is one of `0` to `9`.
pub open spec fn is_digit(b: u8) -> bool {
    48 <= b <= 57
}

/// Whether `s` holds decimal digits only.
pub open spec fn all_digits(s: Seq<u8>) -> bool {
    forall|i: int| 0 <= i < s.len() ==> is_digit(#[trigger] s[i])
}

/// The number that the decimal digits `s` write.
pub open spec fn digits_value(s: Seq<u8>) -> nat
    decreases s.len(),
{
    if s.len() == 0 {
        0
    } else {
        digits_value(s.drop_last()) * 10 + (s.last() - 48) as nat
    }
}

/// The number that `digits` writes, where they are at least one decimal digit
/// and write at most `max`.
pub open spec fn digits_number(digits: Seq<u8>, max: int) -> Option<int> {
    if digits.len() > 0 && all_digits(digits) && digits_value(digits) <= max {
        Some(digits_value(digits) as int)
    } else {
        None
    }
}

/// A field read as a number: an optional `+`, then at least one digit, with a
/// value of at most `max`. Anything else is no number.
pub open spec fn parse_number(s: Seq<u8>, max: int) -> Option<int> {
    if s.len() > 0 && s[0] == 43 {
        digits_number(s.subrange(1, s.len() as int), max)
    } else {
        digits_number(s, max)
    }
}

/// Where the field that starts at `from` ends: at the next `-`, or at the end
/// of the text.
pub open spec fn field_end(s: Seq<u8>, from: int) -> int
    decreases s.len() - from,
{
    if from >= s.len() {
        s.len() as int
    } else if s[from] == 45 {
        from
    } else {
        field_end(s, from + 1)
    }
}

/// The three fields of `s` read as year, month and day, the year negated where
/// `negative` says so. There must be at least three fields; what follows the
/// third is not read.
pub open spec fn parse_fields(s: Seq<u8>, negative: bool) -> Option<EraStartDate> {
    let e1 = field_end(s, 0);
    let e2 = field_end(s, e1 + 1);
    let e3 = field_end(s, e2 + 1);
    if e1 < s.len() && e2 < s.len() {
        match (
            parse_number(s.subrange(0, e1), 0x7fff_ffff),
            parse_number(s.subrange(e1 + 1, e2), 255),
            parse_number(s.subrange(e2 + 1, e3), 255),
        ) {
            (Some(year), Some(month), Some(day)) => Some(
                EraStartDate {
                    year: (if negative {
                        -year
                    } else {
                        year
                    }) as i32,
                    month: month as u8,
                    day: day as u8,
                },
            ),
            _ => None,
        }
    } else {
        None
    }
}

/// The date that the text `s` writes, if it writes one: `[-]YYYY-MM-DD`, where
/// a leading `-` negates the year.
pub open spec fn parse_date(s: Seq<u8>) -> Option<EraStartDate> {
    if s.len() > 0 && s[0] == 45 {
        parse_fields(s.subrange(1, s.len() as int), true)
    } else {
        parse_fields(s, false)
    }
}

/// More digits never write a smaller number.
proof fn lemma_digits_prefix(s: Seq<u8>, k: int)
    requires
        all_digits(s),
        0 <= k <= s.len(),
    ensures
        digits_value(s.subrange(0, k)) <= digits_value(s),
    decreases s.len() - k,
{
    if k == s.len() {
        assert(s.subrange(0, k) =~= s);
    } else {
        lemma_digits_prefix(s, k + 1);
        assert(s.subrange(0, k + 1).drop_last() =~= s.subrange(0, k));
        assert(is_digit(s[k]));
    }
}

fn scan_field(bytes: &[u8], from: usize) -> (end: usize)
    requires
        from <= bytes@.len(),
    ensures
        end == field_end(bytes@, from as int),
        from <= end <= bytes@.len(),
{
    let mut at: usize = from;
    while at < bytes.len() && bytes[at] != DASH
        invariant
            from <= at <= bytes@.len(),
            field_end(bytes@, from as int) == field_end(bytes@, at as int),
        decreases bytes@.len() - at,
    {
        at = at + 1;
    }
    at
}

fn read_number(bytes: &[u8], from: usize, to: usize, max: u32) -> (r: Option<u32>)
    requires
        from <= to <= bytes@.len(),
    ensures
        match parse_number(bytes@.subrange(from as int, to as int), max as int) {
            Some(v) => r == Some(v as u32),
            None => r is None,
        },
{
    let ghost field = bytes@.subrange(from as int, to as int);
    let start: usize = if from < to && bytes[from] == PLUS {
        from + 1
    } else {
        from
    };
    let ghost digits = bytes@.subrange(start as int, to as int);
    assert(digits =~= if field.len() > 0 && field[0] == 43 {
        field.subrange(1, field.len() as int)
    } else {
        field
    });
    assert(parse_number(field, max as int) == digits_number(digits, max as int));
    if start == to {
        return None;
    }
    let mut acc: u64 = 0;
    let mut at: usize = start;
    while at < to
        invariant
            start <= at <= to <= bytes@.len(),
            digits == bytes@.subrange(start as int, to as int),
            parse_number(bytes@.subrange(from as int, to as int), max as int) == digits_number(
                digits,
                max as int,
            ),
            all_digits(digits.subrange(0, at - start)),
            acc == digits_value(digits.subrange(0, at - start)),
            acc <= max,
        decreases to - at,
    {
        let b: u8 = bytes[at];
        assert(b == digits[at - start]);
        if b < ZERO || b > 57 {
            assert(!is_digit(digits[at - start]));
            return None;
        }
        assert(digits.subrange(0, at - start + 1).drop_last() =~= digits.subrange(
            0,
            at - start,
        ));
        acc = acc * 10 + (b - ZERO) as u64;
        at = at + 1;
        assert(all_digits(digits.subrange(0, at - start))) by {
            assert forall|i: int| 0 <= i < at - start implies is_digit(
                #[trigger] digits.subrange(0, at - start)[i],
            ) by {
                if i < at - start - 1 {
                    assert(digits.subrange(0, at - start - 1)[i] == digits[i]);
                }
            }
        }
        if acc > max as u64 {
            proof {
                if all_digits(digits) {
                    lemma_digits_prefix(digits, at - start);
                }
            }
            return None;
        }
    }
    assert(digits.subrange(0, at - start) =~= digits);
    Some(acc as u32)
}

fn read_fields(bytes: &[u8], negative: bool) -> (r: Option<EraStartDate>)
    ensures
        r == parse_fields(bytes@, negative),
{
    let len: usize = bytes.len();
    let e1: usize = scan_field(bytes, 0);
    if e1 >= len {
        return None;
    }
    let e2: usize = scan_field(bytes, e1 + 1);
    if e2 >= len {
        return None;
    }
    let e3: usize = scan_field(bytes, e2 + 1);
    let year: Option<u32> = read_number(bytes, 0, e1, 0x7fff_ffff);
    let month: Option<u32> = read_number(bytes, e1 + 1, e2, 255);
    let day: Option<u32> = read_number(bytes, e2 + 1, e3, 255);
    match (year, month, day) {
        (Some(y), Some(m), Some(d)) => {
            let magnitude: i32 = y as i32;
            let year: i32 = if negative {
                -magnitude
            } else {
                magnitude
            };
            Some(EraStartDate { year, month: m as u8, day: d as u8 })
        },
        _ => None,
    }
}

impl EraStartDate {
    /// Reads a date written as `[-]YYYY-MM-DD`.
    ///
    /// A leading `-` negates the year. Each field is an optional `+` and
    /// decimal digits; the year must fit 31 bits, month and day 8 bits. A
    /// missing or non-numeric field fails, and nothing is returned for a part
    /// of the text. Fields behind the day are not read.
    pub fn from_str(s: &str) -> (r: Result<EraStartDate, ()>)
        ensures
            match parse_date(s.spec_bytes()) {
                Some(date) => r == Ok::<EraStartDate, ()>(date),
                None => r is Err,
            },
    {
        let bytes: &[u8] = s.as_bytes();
        let len: usize = bytes.len();
        let parsed: Option<EraStartDate> = if len > 0 && bytes[0] == DASH {
            read_fields(slice_subrange(bytes, 1, len), true)
        } else {
            read_fields(bytes, false)
        };
        match parsed {
            Some(date) => Ok(date),
            None => Err(()),
        }
    }
}

impl core::str::FromStr for EraStartDate {
    type Err = ();

    /// Reads a date written as `[-]YYYY-MM-DD`, as the function of the same
    /// name on the type does.
    fn from_str(s: &str) -> (r: Result<Self, ()>)
        ensures
            match parse_date(s.spec_bytes()) {
                Some(date) => r == Ok::<EraStartDate, ()>(date),
                None => r is Err,
            },
    {
        EraStartDate::from_str(s)
    }
}

} // verus!
