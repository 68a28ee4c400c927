//! The date on which an era starts, ordered by year, then month, then day.

use crate::codec::Record;
use crate::ints::{
    i32_le_bytes, le_i32, lemma_bytes_of_le_i32, lemma_i32_round_trip, read_i32, write_i32,
};
use core::cmp::Ordering;
use vstd::prelude::*;
use vstd::std_specs::cmp::PartialOrdSpecImpl;

verus! {

/// The date at which an era started.
///
/// The order of the fields is the order of comparison: two dates compare by
/// year first, then by month, then by day.
#[derive(Copy, Clone, PartialEq, Eq, Structural, Ord, Hash, Debug)]
pub struct EraStartDate {
    /// The year the era started in
    pub year: i32,
    /// The month the era started in
    pub month: u8,
    /// The day the era started in
    pub day: u8,
}

impl EraStartDate {
    /// Whether `self` is strictly earlier than `other`.
    pub open spec fn precedes(self, other: EraStartDate) -> bool {
        ||| self.year < other.year
        ||| self.year == other.year && self.month < other.month
        ||| self.year == other.year && self.month == other.month && self.day < other.day
    }

    /// Whether `self` is `other` or earlier.
    pub open spec fn not_after(self, other: EraStartDate) -> bool {
        self.precedes(other) || self == other
    }

    /// How `self` stands to `other`.
    pub open spec fn order(self, other: EraStartDate) -> Ordering {
        if self.precedes(other) {
            Ordering::Less
        } else if self == other {
            Ordering::Equal
        } else {
            Ordering::Greater
        }
    }

    /// Whether `self` is strictly earlier than `other`.
    pub fn is_before(&self, other: &EraStartDate) -> (b: bool)
        ensures
            b == self.precedes(*other),
    {
        if self.year != other.year {
            self.year < other.year
        } else if self.month != other.month {
            self.month < other.month
        } else {
            self.day < other.day
        }
    }

    /// Compares two dates field by field.
    pub fn compare(&self, other: &EraStartDate) -> (o: Ordering)
        ensures
            o == self.order(*other),
    {
        if self.year < other.year {
            Ordering::Less
        } else if self.year > other.year {
            Ordering::Greater
        } else if self.month < other.month {
            Ordering::Less
        } else if self.month > other.month {
            Ordering::Greater
        } else if self.day < other.day {
            Ordering::Less
        } else if self.day > other.day {
            Ordering::Greater
        } else {
            Ordering::Equal
        }
    }
}

impl PartialOrd for EraStartDate {
    fn partial_cmp(&self, other: &Self) -> (r: Option<Ordering>) {
        Some(self.compare(other))
    }
}

impl PartialOrdSpecImpl for EraStartDate {
    open spec fn obeys_partial_cmp_spec() -> bool {
        true
    }

    open spec fn partial_cmp_spec(&self, other: &Self) -> Option<Ordering> {
        Some(self.order(*other))
    }
}

/// Whether month and day lie in their domains: months run from 1 to 12, days
/// from 1 to 31. Every year is allowed.
pub open spec fn valid_date(date: EraStartDate) -> bool {
    1 <= date.month <= 12 && 1 <= date.day <= 31
}

/// The six bytes of a date: four bytes of year, least significant first,
/// then month, then day.
pub open spec fn date_bytes(date: EraStartDate) -> Seq<u8> {
    i32_le_bytes(date.year).push(date.month).push(date.day)
}

/// The date that six bytes stand for.
pub open spec fn date_of(bytes: Seq<u8>) -> EraStartDate {
    EraStartDate { year: le_i32(bytes.subrange(0, 4)), month: bytes[4], day: bytes[5] }
}

/// Whether `bytes` is six bytes that stand for a date with month and day in
/// their domains.
pub open spec fn legal_date(bytes: Seq<u8>) -> bool {
    bytes.len() == 6 && 1 <= bytes[4] <= 12 && 1 <= bytes[5] <= 31
}

/// A date is held by its six bytes, which are legal exactly when the date is
/// valid.
pub proof fn lemma_date_round_trip(date: EraStartDate)
    ensures
        date_bytes(date).len() == 6,
        date_of(date_bytes(date)) == date,
        legal_date(date_bytes(date)) <==> valid_date(date),
{
    lemma_i32_round_trip(date.year);
    assert(date_bytes(date).subrange(0, 4) =~= i32_le_bytes(date.year));
}

/// Legal bytes stand for a valid date and are that date's bytes.
pub proof fn lemma_bytes_of_date(bytes: Seq<u8>)
    requires
        legal_date(bytes),
    ensures
        valid_date(date_of(bytes)),
        date_bytes(date_of(bytes)) == bytes,
{
    lemma_bytes_of_le_i32(bytes.subrange(0, 4));
    assert(date_bytes(date_of(bytes)) =~= bytes);
}

/// Tests the six bytes at `at`: month and day must lie in their domains.
pub fn check_date(bytes: &[u8], at: usize) -> (ok: bool)
    requires
        at + 6 <= bytes@.len(),
    ensures
        ok == legal_date(bytes@.subrange(at as int, at + 6)),
{
    let len: usize = bytes.len();
    let month: u8 = bytes[at + 4];
    let day: u8 = bytes[at + 5];
    1 <= month && month <= 12 && 1 <= day && day <= 31
}

/// Decodes the six bytes at `at`.
pub fn read_date(bytes: &[u8], at: usize) -> (date: EraStartDate)
    requires
        at + 6 <= bytes@.len(),
    ensures
        date == date_of(bytes@.subrange(at as int, at + 6)),
{
    let len: usize = bytes.len();
    let year: i32 = read_i32(bytes, at);
    assert(bytes@.subrange(at as int, at + 6).subrange(0, 4) =~= bytes@.subrange(
        at as int,
        at + 4,
    ));
    EraStartDate { year, month: bytes[at + 4], day: bytes[at + 5] }
}

/// The six bytes of a date.
pub fn write_date(date: &EraStartDate) -> (out: [u8; 6])
    ensures
        out@ == date_bytes(*date),
{
    let year: [u8; 4] = write_i32(date.year);
    let out: [u8; 6] = [year[0], year[1], year[2], year[3], date.month, date.day];
    assert(out@ =~= date_bytes(*date));
    out
}

impl Record<6> for EraStartDate {
    open spec fn in_domain(&self) -> bool {
        valid_date(*self)
    }

    open spec fn encode(&self) -> Seq<u8> {
        date_bytes(*self)
    }

    open spec fn decode(bytes: Seq<u8>) -> Self {
        date_of(bytes)
    }

    open spec fn legal(bytes: Seq<u8>) -> bool {
        legal_date(bytes)
    }

    proof fn lemma_encode_decode(v: Self) {
        lemma_date_round_trip(v);
    }

    proof fn lemma_decode_encode(bytes: Seq<u8>) {
        lemma_bytes_of_date(bytes);
    }

    fn check(bytes: &[u8], at: usize) -> (ok: bool) {
        check_date(bytes, at)
    }

    fn read(bytes: &[u8], at: usize) -> (v: Self) {
        read_date(bytes, at)
    }

    fn write(&self) -> (out: [u8; 6]) {
        write_date(self)
    }
}

} // verus!
