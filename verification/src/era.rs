//! The table of eras: which era is in force on a given date.

use crate::code::{
    check_code, code_of, lemma_code_of, lemma_code_of_view, read_code, well_formed_code, EraCode,
};
use crate::codec::{decode_all, nth, valid_buffer, InvalidLayout, Record};
use crate::date::{
    check_date, date_bytes, date_of, legal_date, lemma_bytes_of_date, lemma_date_round_trip,
    read_date, valid_date, write_date, EraStartDate,
};
use crate::sequence::Sequence;
use core::cmp::Ordering;
use vstd::pervasive::unreached;
use vstd::prelude::*;

verus! {

/// No era of the table has started by the date asked for.
#[derive(Debug, Clone, Copy, PartialEq, Eq, Structural)]
pub struct NoEraCovers;

/// One row of the era table: the day an era starts, and its code.
#[derive(Copy, Clone, PartialEq, Eq, Hash, Debug)]
pub struct EraEntry {
    /// The first day of the era
    pub start: EraStartDate,
    /// The code of the era
    pub code: EraCode,
}

/// Whether both fields of an entry lie in their domains.
pub open spec fn valid_entry(entry: EraEntry) -> bool {
    valid_date(entry.start) && well_formed_code(entry.code@)
}

/// The 22 bytes of an entry: six bytes of start date, then sixteen bytes of
/// code.
pub open spec fn entry_bytes(entry: EraEntry) -> Seq<u8> {
    date_bytes(entry.start) + entry.code@
}

/// The entry that 22 bytes stand for.
pub open spec fn entry_of(bytes: Seq<u8>) -> EraEntry {
    EraEntry { start: date_of(bytes.subrange(0, 6)), code: code_of(bytes.subrange(6, 22)) }
}

/// Whether `bytes` is 22 bytes that stand for an entry with both fields in
/// their domains.
pub open spec fn legal_entry(bytes: Seq<u8>) -> bool {
    &&& bytes.len() == 22
    &&& legal_date(bytes.subrange(0, 6))
    &&& well_formed_code(bytes.subrange(6, 22))
}

impl Record<22> for EraEntry {
    open spec fn in_domain(&self) -> bool {
        valid_entry(*self)
    }

    open spec fn encode(&self) -> Seq<u8> {
        entry_bytes(*self)
    }

    open spec fn decode(bytes: Seq<u8>) -> Self {
        entry_of(bytes)
    }

    open spec fn legal(bytes: Seq<u8>) -> bool {
        legal_entry(bytes)
    }

    proof fn lemma_encode_decode(v: Self) {
        lemma_date_round_trip(v.start);
        lemma_code_of_view(v.code);
        assert(v.encode().subrange(0, 6) =~= date_bytes(v.start));
        assert(v.encode().subrange(6, 22) =~= v.code@);
    }

    proof fn lemma_decode_encode(bytes: Seq<u8>) {
        lemma_bytes_of_date(bytes.subrange(0, 6));
        lemma_code_of(bytes.subrange(6, 22));
        assert(entry_bytes(entry_of(bytes)) =~= bytes);
    }

    fn check(bytes: &[u8], at: usize) -> (ok: bool) {
        let len: usize = bytes.len();
        proof {
            let field = bytes@.subrange(at as int, at + 22);
            assert(field.subrange(0, 6) =~= bytes@.subrange(at as int, at + 6));
            assert(field.subrange(6, 22) =~= bytes@.subrange(at + 6, at + 6 + 16));
        }
        check_date(bytes, at) && check_code(bytes, at + 6)
    }

    fn read(bytes: &[u8], at: usize) -> (v: Self) {
        let len: usize = bytes.len();
        proof {
            let field = bytes@.subrange(at as int, at + 22);
            assert(field.subrange(0, 6) =~= bytes@.subrange(at as int, at + 6));
            assert(field.subrange(6, 22) =~= bytes@.subrange(at + 6, at + 6 + 16));
        }
        EraEntry { start: read_date(bytes, at), code: read_code(bytes, at + 6) }
    }

    fn write(&self) -> (out: [u8; 22]) {
        let s: [u8; 6] = write_date(&self.start);
        let c: [u8; 16] = self.code.all_bytes();
        let out: [u8; 22] = [
            s[0],
            s[1],
            s[2],
            s[3],
            s[4],
            s[5],
            c[0],
            c[1],
            c[2],
            c[3],
            c[4],
            c[5],
            c[6],
            c[7],
            c[8],
            c[9],
            c[10],
            c[11],
            c[12],
            c[13],
            c[14],
            c[15],
        ];
        assert(out@ =~= self.encode());
        out
    }
}

/// Whether every entry starts strictly before the entries behind it.
pub open spec fn strictly_ascending(entries: Seq<EraEntry>) -> bool {
    forall|i: int, j: int|
        0 <= i < j < entries.len() ==> (#[trigger] entries[i]).start.precedes(
            (#[trigger] entries[j]).start,
        )
}

/// A scan over all entries that keeps the one with the greatest start date
/// among those that have started by `date`.
pub open spec fn latest_started(entries: Seq<EraEntry>, date: EraStartDate) -> Option<EraEntry>
    decreases entries.len(),
{
    if entries.len() == 0 {
        None
    } else {
        let before = latest_started(entries.drop_last(), date);
        let last = entries.last();
        if last.start.not_after(date) && (before matches Some(e) ==> e.start.not_after(
            last.start,
        )) {
            Some(last)
        } else {
            before
        }
    }
}

/// The era in force on `date`: the code of the entry with the greatest start
/// date that is not after `date`, or nothing where the date is before every
/// entry.
pub open spec fn era_on(entries: Seq<EraEntry>, date: EraStartDate) -> Result<
    EraCode,
    NoEraCovers,
> {
    match latest_started(entries, date) {
        Some(entry) => Ok(entry.code),
        None => Err(NoEraCovers),
    }
}

/// In a table in ascending order, the entries that have started by a date
/// are the first ones, and the scan keeps the last of them.
pub proof fn lemma_latest_started(entries: Seq<EraEntry>, date: EraStartDate, count: int)
    requires
        strictly_ascending(entries),
        0 <= count <= entries.len(),
        forall|j: int| 0 <= j < count ==> (#[trigger] entries[j]).start.not_after(date),
        forall|j: int| count <= j < entries.len() ==> date.precedes((#[trigger] entries[j]).start),
    ensures
        count == 0 ==> latest_started(entries, date) is None,
        count > 0 ==> latest_started(entries, date) == Some(entries[count - 1]),
    decreases entries.len(),
{
    if entries.len() == 0 {
    } else {
        let shorter = entries.drop_last();
        let last = entries.last();
        assert(strictly_ascending(shorter)) by {
            assert forall|i: int, j: int| 0 <= i < j < shorter.len() implies (
            #[trigger] shorter[i]).start.precedes((#[trigger] shorter[j]).start) by {
                assert(entries[i].start.precedes(entries[j].start));
            }
        }
        if count == entries.len() {
            assert forall|j: int| 0 <= j < count - 1 implies (
            #[trigger] shorter[j]).start.not_after(date) by {
                assert(entries[j].start.not_after(date));
            }
            lemma_latest_started(shorter, date, count - 1);
            assert(last.start.not_after(date));
            if count - 1 > 0 {
                assert(entries[count - 2].start.precedes(entries[count - 1].start));
                assert(shorter[count - 2] == entries[count - 2]);
            }
        } else {
            assert forall|j: int| 0 <= j < count implies (#[trigger] shorter[j]).start.not_after(
                date,
            ) by {
                assert(entries[j].start.not_after(date));
            }
            assert forall|j: int| count <= j < shorter.len() implies date.precedes(
                (#[trigger] shorter[j]).start,
            ) by {
                assert(date.precedes(entries[j].start));
            }
            lemma_latest_started(shorter, date, count);
            assert(date.precedes(last.start));
            if count > 0 {
                assert(shorter[count - 1] == entries[count - 1]);
            }
        }
    }
}

/// The scan keeps an entry that has started by the date, and none that has
/// started by the date starts later. It keeps nothing only where no entry has
/// started by the date.
pub proof fn lemma_latest_is_greatest(entries: Seq<EraEntry>, date: EraStartDate)
    ensures
        match latest_started(entries, date) {
            Some(entry) => {
                &&& entries.contains(entry)
                &&& entry.start.not_after(date)
                &&& forall|j: int|
                    0 <= j < entries.len() && (#[trigger] entries[j]).start.not_after(date)
                        ==> entries[j].start.not_after(entry.start)
            },
            None => forall|j: int|
                0 <= j < entries.len() ==> !(#[trigger] entries[j]).start.not_after(date),
        },
    decreases entries.len(),
{
    if entries.len() > 0 {
        let shorter = entries.drop_last();
        let last = entries.last();
        lemma_latest_is_greatest(shorter, date);
        let before = latest_started(shorter, date);
        assert forall|j: int| 0 <= j < shorter.len() implies shorter[j] == entries[j] by {}
        match latest_started(entries, date) {
            Some(entry) => {
                if entry == last && last.start.not_after(date) && (before matches Some(e)
                    ==> e.start.not_after(last.start)) {
                    assert(entries[entries.len() - 1] == last);
                    assert forall|j: int|
                        0 <= j < entries.len() && (#[trigger] entries[j]).start.not_after(
                            date,
                        ) implies entries[j].start.not_after(entry.start) by {
                        if j < shorter.len() {
                            assert(shorter[j].start.not_after(date));
                        }
                    }
                } else {
                    assert(before == Some(entry));
                    let k = shorter.index_of(entry);
                    assert(entries[k] == entry);
                    assert forall|j: int|
                        0 <= j < entries.len() && (#[trigger] entries[j]).start.not_after(
                            date,
                        ) implies entries[j].start.not_after(entry.start) by {
                        if j < shorter.len() {
                            assert(shorter[j].start.not_after(date));
                        }
                    }
                }
            },
            None => {
                assert forall|j: int| 0 <= j < entries.len() implies !(
                #[trigger] entries[j]).start.not_after(date) by {
                    if j < shorter.len() {
                        assert(!shorter[j].start.not_after(date));
                    }
                }
            },
        }
    }
}

/// On the day an era starts it is already in force: in a table in ascending
/// order, the era on the start date of an entry is the era of that entry, not
/// the one before it.
pub proof fn lemma_start_date_is_covered(entries: Seq<EraEntry>, i: int)
    requires
        strictly_ascending(entries),
        0 <= i < entries.len(),
    ensures
        era_on(entries, entries[i].start) == Ok::<EraCode, NoEraCovers>(entries[i].code),
{
    let date = entries[i].start;
    assert forall|j: int| 0 <= j < i + 1 implies (#[trigger] entries[j]).start.not_after(date) by {
        if j < i {
            assert(entries[j].start.precedes(entries[i].start));
        }
    }
    assert forall|j: int| i + 1 <= j < entries.len() implies date.precedes(
        (#[trigger] entries[j]).start,
    ) by {
        assert(entries[i].start.precedes(entries[j].start));
    }
    lemma_latest_started(entries, date, i + 1);
}

/// In a table each entry starts strictly before the next.
pub proof fn lemma_table_ordered(table: EraTable, i: int)
    requires
        table.wf(),
        0 <= i,
        i + 1 < table@.len(),
    ensures
        table@[i].start.precedes(table@[i + 1].start),
{
}

/// The era table: entries in strictly ascending order of start date, so that
/// no two entries start on the same day.
#[derive(Debug, Clone, Copy, PartialEq, Eq)]
pub struct EraTable<'a> {
    records: Sequence<'a, EraEntry, 22>,
}

impl<'a> View for EraTable<'a> {
    type V = Seq<EraEntry>;

    /// The entries in stored order.
    closed spec fn view(&self) -> Seq<EraEntry> {
        self.records@
    }
}

impl<'a> EraTable<'a> {
    #[verifier::type_invariant]
    spec fn inv(self) -> bool {
        self.records.wf() && strictly_ascending(self.records@)
    }

    /// The bytes behind the table.
    pub closed spec fn bytes(&self) -> Seq<u8> {
        self.records.bytes()
    }

    /// The table is what its bytes decode to, every entry is in its domain,
    /// and the start dates ascend strictly.
    pub open spec fn wf(&self) -> bool {
        &&& valid_buffer::<EraEntry, 22>(self.bytes())
        &&& self@ == decode_all::<EraEntry, 22>(self.bytes())
        &&& strictly_ascending(self@)
    }

    /// Wraps `bytes` as an era table. The buffer is refused where it is not a
    /// whole number of legal entries of 22 bytes, or where an entry does not
    /// start strictly after the one before it.
    pub fn load(bytes: &'a [u8]) -> (r: Result<EraTable<'a>, InvalidLayout>)
        ensures
            r is Ok <==> valid_buffer::<EraEntry, 22>(bytes@) && strictly_ascending(
                decode_all::<EraEntry, 22>(bytes@),
            ),
            r matches Ok(table) ==> table.bytes() == bytes@ && table.wf(),
    {
        let records: Sequence<'a, EraEntry, 22> = match Sequence::from_bytes(bytes) {
            Ok(records) => records,
            Err(e) => {
                return Err(e);
            },
        };
        let n: usize = records.len();
        if n == 0 {
            return Ok(EraTable { records });
        }
        let mut index: usize = 1;
        while index < n
            invariant
                n == records@.len(),
                1 <= index <= n,
                records@ == decode_all::<EraEntry, 22>(bytes@),
                strictly_ascending(records@.take(index as int)),
            decreases n - index,
        {
            let before: Option<EraEntry> = records.get(index - 1);
            let here: Option<EraEntry> = records.get(index);
            match (before, here) {
                (Some(a), Some(b)) => {
                    if !a.start.is_before(&b.start) {
                        assert(!records@[index - 1].start.precedes(records@[index as int].start));
                        return Err(InvalidLayout);
                    }
                },
                _ => {
                    return Err(InvalidLayout);
                },
            }
            proof {
                let shorter = records@.take(index as int);
                let longer = records@.take(index + 1);
                assert forall|i: int, j: int| 0 <= i < j < longer.len() implies (
                #[trigger] longer[i]).start.precedes((#[trigger] longer[j]).start) by {
                    if j < index {
                        assert(shorter[i].start.precedes(shorter[j].start));
                    } else if i < index - 1 {
                        assert(shorter[i].start.precedes(shorter[index - 1].start));
                    }
                }
            }
            index = index + 1;
        }
        assert(records@.take(index as int) =~= records@);
        Ok(EraTable { records })
    }

    /// The table without entries.
    pub fn empty() -> (table: EraTable<'a>)
        ensures
            table@.len() == 0,
            table.wf(),
    {
        let bytes: &'a [u8] = &[];
        assert(bytes@.len() == 0);
        match EraTable::load(bytes) {
            Ok(table) => table,
            Err(_) => unreached(),
        }
    }

    /// The bytes behind the table.
    pub fn as_bytes(&self) -> (bytes: &'a [u8])
        ensures
            bytes@ == self.bytes(),
            self.wf(),
    {
        proof {
            use_type_invariant(self);
        }
        self.records.as_bytes()
    }

    /// The number of entries.
    pub fn len(&self) -> (n: usize)
        ensures
            n == self@.len(),
    {
        self.records.len()
    }

    /// The entry at `index`, or `None` where `index` is out of range.
    pub fn get(&self, index: usize) -> (r: Option<EraEntry>)
        ensures
            index < self@.len() ==> r == Some(self@[index as int]),
            index >= self@.len() ==> r is None,
    {
        self.records.get(index)
    }

    /// All entries in ascending order of start date.
    pub fn to_vec(&self) -> (out: Vec<EraEntry>)
        ensures
            out@ == self@,
            strictly_ascending(out@),
    {
        proof {
            use_type_invariant(self);
        }
        self.records.to_vec()
    }

    /// How many entries have started by `date`; they are the first ones.
    fn started(&self, date: EraStartDate) -> (count: usize)
        ensures
            count <= self@.len(),
            forall|j: int| 0 <= j < count ==> (#[trigger] self@[j]).start.not_after(date),
            forall|j: int| count <= j < self@.len() ==> date.precedes((#[trigger] self@[j]).start),
    {
        proof {
            use_type_invariant(self);
        }
        let n: usize = self.records.len();
        let probe = |entry: EraEntry| -> (o: Ordering)
            ensures
                o == entry.start.order(date),
            { entry.start.compare(&date) };
        match self.records.binary_search_by(probe) {
            Ok(i) => {
                assert(nth(self@, i).start == date);
                i + 1
            },
            Err(p) => {
                assert(p > 0 ==> self@[p - 1].start.precedes(date));
                assert(p < n ==> date.precedes(nth(self@, p).start));
                p
            },
        }
    }

    /// The era in force on `date`.
    ///
    /// An era is in force from its start date on, that day included, until
    /// the next era starts. A date before the first entry has no era.
    pub fn resolve(&self, date: EraStartDate) -> (r: Result<EraCode, NoEraCovers>)
        ensures
            r == era_on(self@, date),
    {
        proof {
            use_type_invariant(self);
        }
        let count: usize = self.started(date);
        proof {
            lemma_latest_started(self@, date, count as int);
        }
        if count == 0 {
            Err(NoEraCovers)
        } else {
            match self.records.get(count - 1) {
                Some(entry) => Ok(entry.code),
                None => Err(NoEraCovers),
            }
        }
    }
}

/// The era data of a Japanese calendar.
#[derive(Debug, PartialEq)]
pub struct JapaneseErasV1<'data> {
    /// A map from era start dates to their era codes
    pub dates_to_eras: EraTable<'data>,
}

impl<'data> Clone for JapaneseErasV1<'data> {
    /// The same data over the same bytes.
    fn clone(&self) -> (copy: Self)
        ensures
            copy == *self,
    {
        JapaneseErasV1 { dates_to_eras: self.dates_to_eras }
    }
}

impl<'data> Default for JapaneseErasV1<'data> {
    /// The data of a calendar without eras.
    fn default() -> (data: Self)
        ensures
            data.dates_to_eras@.len() == 0,
    {
        JapaneseErasV1 { dates_to_eras: EraTable::empty() }
    }
}

} // verus!
