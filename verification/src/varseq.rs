//! A byte buffer seen as a sequence of strings of any length.
//!
//! The buffer starts with `n + 1` offsets of four bytes each, least
//! significant byte first, and the payload follows them. The first offset is
//! 0, no offset is smaller than the one before it, and the last is the length
//! of the payload. Entry `i` is the payload from offset `i` up to offset
//! `i + 1`. The number of entries is not stored: it is the one `n` for which
//! the last of the `n + 1` offsets is the length of what follows them.

use crate::codec::{nth, InvalidLayout};
use crate::ints::{le_u32, read_u32};
use crate::text::{
    bytes_order, bytes_precede, compare_bytes, lemma_bytes_precede_transitive,
    lemma_bytes_totally_ordered, text_of,
};
use core::cmp::Ordering;
use vstd::prelude::*;
use vstd::slice::slice_subrange;
use vstd::string::StringSliceAdditionalSpecFns;
use vstd::utf8::valid_utf8;

verus! {

/// The `k`-th offset of the header.
pub open spec fn offset_at(bytes: Seq<u8>, k: int) -> int {
    le_u32(bytes.subrange(4 * k, 4 * k + 4)) as int
}

/// Whether `bytes` is a header of `n + 1` offsets and a payload as long as the
/// last of them says, with the first offset 0 and no offset smaller than one
/// before it.
pub open spec fn var_layout(bytes: Seq<u8>, n: int) -> bool {
    &&& 0 <= n
    &&& 4 * (n + 1) <= bytes.len()
    &&& offset_at(bytes, 0) == 0
    &&& forall|i: int, j: int|
        0 <= i <= j <= n ==> #[trigger] offset_at(bytes, i) <= #[trigger] offset_at(bytes, j)
    &&& offset_at(bytes, n) == bytes.len() - 4 * (n + 1)
}

/// Entry `i` of a buffer with `n` entries.
pub open spec fn var_entry(bytes: Seq<u8>, n: int, i: int) -> Seq<u8> {
    bytes.subrange(4 * (n + 1) + offset_at(bytes, i), 4 * (n + 1) + offset_at(bytes, i + 1))
}

/// The `n` entries of a buffer.
pub open spec fn var_entries(bytes: Seq<u8>, n: int) -> Seq<Seq<u8>> {
    Seq::new(n as nat, |i: int| var_entry(bytes, n, i))
}

/// Whether every entry is UTF-8.
pub open spec fn all_text(entries: Seq<Seq<u8>>) -> bool {
    forall|i: int| 0 <= i < entries.len() ==> valid_utf8(#[trigger] entries[i])
}

/// Whether no entry comes before an entry in front of it, byte by byte.
pub open spec fn ascending(entries: Seq<Seq<u8>>) -> bool {
    forall|i: int, j: int|
        0 <= i < j < entries.len() ==> !bytes_precede(#[trigger] entries[j], #[trigger] entries[i])
}

/// Whether every entry comes before the entries behind it, byte by byte.
pub open spec fn strictly_ascending(entries: Seq<Seq<u8>>) -> bool {
    forall|i: int, j: int|
        0 <= i < j < entries.len() ==> bytes_precede(#[trigger] entries[i], #[trigger] entries[j])
}

/// Whether `bytes` is a sequence of strings: it has the layout for some
/// number of entries, and every entry is UTF-8.
pub open spec fn valid_var(bytes: Seq<u8>) -> bool {
    exists|n: int| var_layout(bytes, n) && all_text(#[trigger] var_entries(bytes, n))
}

/// The number of entries of a buffer that has the layout.
pub open spec fn var_count(bytes: Seq<u8>) -> int {
    choose|n: int| var_layout(bytes, n)
}

/// The entries of a buffer that has the layout.
pub open spec fn var_contents(bytes: Seq<u8>) -> Seq<Seq<u8>> {
    var_entries(bytes, var_count(bytes))
}

/// A buffer has the layout for one number of entries at most.
pub proof fn lemma_count_unique(bytes: Seq<u8>, n: int, m: int)
    requires
        var_layout(bytes, n),
        var_layout(bytes, m),
    ensures
        n == m,
{
    if n < m {
        assert(offset_at(bytes, n) <= offset_at(bytes, m));
    } else if m < n {
        assert(offset_at(bytes, m) <= offset_at(bytes, n));
    }
}

/// The number of entries is the number for which the buffer has the layout.
pub proof fn lemma_var_count(bytes: Seq<u8>, n: int)
    requires
        var_layout(bytes, n),
    ensures
        var_count(bytes) == n,
        var_contents(bytes) == var_entries(bytes, n),
{
    lemma_count_unique(bytes, n, var_count(bytes));
}

/// Every entry lies inside the payload.
pub proof fn lemma_entry_bounds(bytes: Seq<u8>, n: int, i: int)
    requires
        var_layout(bytes, n),
        0 <= i < n,
    ensures
        0 <= offset_at(bytes, i) <= offset_at(bytes, i + 1) <= bytes.len() - 4 * (n + 1),
{
    assert(offset_at(bytes, 0) <= offset_at(bytes, i));
    assert(offset_at(bytes, i) <= offset_at(bytes, i + 1));
    assert(offset_at(bytes, i + 1) <= offset_at(bytes, n));
}

/// What does not come behind something that comes before a third comes
/// before the third.
pub proof fn lemma_not_after_then_before(a: Seq<u8>, b: Seq<u8>, c: Seq<u8>)
    requires
        !bytes_precede(b, a),
        bytes_precede(b, c),
    ensures
        bytes_precede(a, c),
{
    lemma_bytes_totally_ordered(a, b);
    if a != b {
        lemma_bytes_precede_transitive(a, b, c);
    }
}

/// What comes before something that does not come behind a third comes
/// before the third.
pub proof fn lemma_before_then_not_after(a: Seq<u8>, b: Seq<u8>, c: Seq<u8>)
    requires
        bytes_precede(a, b),
        !bytes_precede(c, b),
    ensures
        bytes_precede(a, c),
{
    lemma_bytes_totally_ordered(b, c);
    if b != c {
        lemma_bytes_precede_transitive(a, b, c);
    }
}

/// Reads the `k`-th offset of the header.
fn read_offset(bytes: &[u8], k: usize) -> (offset: usize)
    requires
        4 * k + 4 <= bytes@.len(),
    ensures
        offset == offset_at(bytes@, k as int),
{
    let len: usize = bytes.len();
    let v: u32 = read_u32(bytes, 4 * k);
    v as usize
}

/// Finds the number of entries for which `bytes` has the layout.
fn find_count(bytes: &[u8]) -> (r: Option<usize>)
    ensures
        match r {
            Some(n) => var_layout(bytes@, n as int),
            None => forall|n: int| !var_layout(bytes@, n),
        },
{
    let len: usize = bytes.len();
    let mut k: usize = 0;
    let mut last: usize = 0;
    while len - 4 * k >= 4
        invariant
            len == bytes@.len(),
            4 * k <= len,
            k == 0 ==> last == 0,
            k > 0 ==> last == offset_at(bytes@, k - 1),
            k > 0 ==> offset_at(bytes@, 0) == 0,
            forall|i: int, j: int|
                0 <= i <= j < k ==> #[trigger] offset_at(bytes@, i) <= #[trigger] offset_at(
                    bytes@,
                    j,
                ),
            forall|i: int| 0 <= i < k ==> #[trigger] offset_at(bytes@, i) != len - 4 * (i + 1),
        decreases len - 4 * k,
    {
        let offset: usize = read_offset(bytes, k);
        if offset < last || (k == 0 && offset != 0) {
            proof {
                assert forall|n: int| !var_layout(bytes@, n) by {
                    if var_layout(bytes@, n) {
                        if n < k {
                            assert(offset_at(bytes@, n) != len - 4 * (n + 1));
                        } else if k > 0 {
                            assert(offset_at(bytes@, k - 1) <= offset_at(bytes@, k as int));
                        }
                    }
                }
            }
            return None;
        }
        if offset == len - 4 * k - 4 {
            proof {
                assert forall|i: int, j: int| 0 <= i <= j <= k implies #[trigger] offset_at(
                    bytes@,
                    i,
                ) <= #[trigger] offset_at(bytes@, j) by {
                    if j == k && i < k {
                        assert(offset_at(bytes@, i) <= offset_at(bytes@, k - 1));
                    }
                }
            }
            return Some(k);
        }
        proof {
            assert forall|i: int, j: int| 0 <= i <= j < k + 1 implies #[trigger] offset_at(
                bytes@,
                i,
            ) <= #[trigger] offset_at(bytes@, j) by {
                if j == k && i < k {
                    assert(offset_at(bytes@, i) <= offset_at(bytes@, k - 1));
                }
            }
        }
        last = offset;
        k = k + 1;
    }
    proof {
        assert forall|n: int| !var_layout(bytes@, n) by {
            if var_layout(bytes@, n) {
                if n < k {
                    assert(offset_at(bytes@, n) != len - 4 * (n + 1));
                }
            }
        }
    }
    None
}

/// A validated buffer of strings.
///
/// The buffer is checked once, when the sequence is made: the offsets, and
/// that every entry is UTF-8. Entries may be empty, and so may the sequence.
#[derive(Debug, Clone, Copy, PartialEq, Eq)]
pub struct VarSequence<'a> {
    bytes: &'a [u8],
    count: usize,
}

impl<'a> View for VarSequence<'a> {
    type V = Seq<Seq<u8>>;

    /// The entries in stored order, each as its bytes.
    closed spec fn view(&self) -> Seq<Seq<u8>> {
        var_entries(self.bytes@, self.count as int)
    }
}

impl<'a> VarSequence<'a> {
    #[verifier::type_invariant]
    spec fn inv(self) -> bool {
        &&& var_layout(self.bytes@, self.count as int)
        &&& all_text(var_entries(self.bytes@, self.count as int))
    }

    /// The bytes behind the sequence.
    pub closed spec fn bytes(&self) -> Seq<u8> {
        self.bytes@
    }

    /// The sequence is what its bytes hold, and every entry is UTF-8.
    pub open spec fn wf(&self) -> bool {
        &&& var_layout(self.bytes(), self@.len() as int)
        &&& self@ == var_entries(self.bytes(), self@.len() as int)
        &&& all_text(self@)
    }

    /// Entry `index`, which is in range, as bytes.
    fn entry(&self, index: usize) -> (entry: &'a [u8])
        requires
            index < self@.len(),
        ensures
            entry@ == self@[index as int],
            valid_utf8(entry@),
    {
        proof {
            use_type_invariant(self);
            lemma_entry_bounds(self.bytes@, self.count as int, index as int);
        }
        let len: usize = self.bytes.len();
        let header: usize = 4 * (self.count + 1);
        let from: usize = read_offset(self.bytes, index);
        let to: usize = read_offset(self.bytes, index + 1);
        proof {
            assert(valid_utf8(var_entries(self.bytes@, self.count as int)[index as int]));
        }
        slice_subrange(self.bytes, header + from, header + to)
    }

    /// Wraps `bytes` as a sequence of strings in any order, or refuses the
    /// buffer where the offsets are not as they must be or an entry is not
    /// UTF-8.
    pub fn from_bytes_unordered(bytes: &'a [u8]) -> (r: Result<Self, InvalidLayout>)
        ensures
            r is Ok <==> valid_var(bytes@),
            r matches Ok(s) ==> s.bytes() == bytes@ && s.wf() && s@ == var_contents(bytes@),
    {
        let count: usize = match find_count(bytes) {
            Some(count) => count,
            None => {
                return Err(InvalidLayout);
            },
        };
        let len: usize = bytes.len();
        let header: usize = 4 * (count + 1);
        let ghost entries = var_entries(bytes@, count as int);
        let mut index: usize = 0;
        while index < count
            invariant
                len == bytes@.len(),
                header == 4 * (count + 1),
                var_layout(bytes@, count as int),
                entries == var_entries(bytes@, count as int),
                index <= count,
                forall|i: int| 0 <= i < index ==> valid_utf8(#[trigger] entries[i]),
            decreases count - index,
        {
            proof {
                lemma_entry_bounds(bytes@, count as int, index as int);
            }
            let from: usize = read_offset(bytes, index);
            let to: usize = read_offset(bytes, index + 1);
            let entry: &[u8] = slice_subrange(bytes, header + from, header + to);
            assert(entry@ == entries[index as int]);
            if text_of(entry).is_none() {
                proof {
                    assert forall|n: int|
                        !(var_layout(bytes@, n) && all_text(
                            #[trigger] var_entries(bytes@, n),
                        )) by {
                        if var_layout(bytes@, n) {
                            lemma_count_unique(bytes@, n, count as int);
                        }
                    }
                }
                return Err(InvalidLayout);
            }
            index = index + 1;
        }
        proof {
            lemma_var_count(bytes@, count as int);
        }
        Ok(VarSequence { bytes, count })
    }

    /// Wraps `bytes` as a sequence of strings in ascending order, byte by
    /// byte. The buffer is refused where the offsets are not as they must be,
    /// an entry is not UTF-8, or an entry comes before the one in front of it.
    pub fn from_bytes(bytes: &'a [u8]) -> (r: Result<Self, InvalidLayout>)
        ensures
            r is Ok <==> exists|n: int|
                var_layout(bytes@, n) && all_text(#[trigger] var_entries(bytes@, n)) && ascending(
                    var_entries(bytes@, n),
                ),
            r matches Ok(s) ==> s.bytes() == bytes@ && s.wf() && ascending(s@),
    {
        let sequence: VarSequence<'a> = match VarSequence::from_bytes_unordered(bytes) {
            Ok(sequence) => sequence,
            Err(e) => {
                return Err(e);
            },
        };
        if sequence.is_ascending() {
            Ok(sequence)
        } else {
            proof {
                assert forall|n: int|
                    !(var_layout(bytes@, n) && all_text(#[trigger] var_entries(bytes@, n))
                        && ascending(var_entries(bytes@, n))) by {
                    if var_layout(bytes@, n) {
                        lemma_count_unique(bytes@, n, sequence@.len() as int);
                    }
                }
            }
            Err(InvalidLayout)
        }
    }

    /// Whether `a` comes strictly before `b`, byte by byte.
    fn before(a: &[u8], b: &[u8]) -> (r: bool)
        ensures
            r == bytes_precede(a@, b@),
    {
        match compare_bytes(a, b) {
            Ordering::Less => true,
            _ => false,
        }
    }

    /// Whether no entry comes before the one in front of it.
    pub fn is_ascending(&self) -> (r: bool)
        ensures
            r == ascending(self@),
    {
        let n: usize = self.len();
        if n == 0 {
            return true;
        }
        let mut index: usize = 1;
        while index < n
            invariant
                n == self@.len(),
                1 <= index <= n,
                ascending(self@.take(index as int)),
            decreases n - index,
        {
            let a: &[u8] = self.entry(index - 1);
            let b: &[u8] = self.entry(index);
            if Self::before(b, a) {
                return false;
            }
            proof {
                let shorter = self@.take(index as int);
                let longer = self@.take(index + 1);
                assert forall|i: int, j: int| 0 <= i < j < longer.len() implies !bytes_precede(
                    #[trigger] longer[j],
                    #[trigger] longer[i],
                ) by {
                    if j < index {
                        assert(!bytes_precede(shorter[j], shorter[i]));
                    } else if i < index - 1 {
                        assert(!bytes_precede(shorter[index - 1], shorter[i]));
                        if bytes_precede(b@, shorter[i]) {
                            lemma_not_after_then_before(a@, b@, shorter[i]);
                        }
                    }
                }
            }
            index = index + 1;
        }
        assert(self@.take(index as int) =~= self@);
        true
    }

    /// Whether every entry comes strictly before the one behind it.
    pub fn is_strictly_ascending(&self) -> (r: bool)
        ensures
            r == strictly_ascending(self@),
    {
        let n: usize = self.len();
        if n == 0 {
            return true;
        }
        let mut index: usize = 1;
        while index < n
            invariant
                n == self@.len(),
                1 <= index <= n,
                strictly_ascending(self@.take(index as int)),
            decreases n - index,
        {
            let a: &[u8] = self.entry(index - 1);
            let b: &[u8] = self.entry(index);
            if !Self::before(a, b) {
                assert(!bytes_precede(self@[index - 1], self@[index as int]));
                return false;
            }
            proof {
                let shorter = self@.take(index as int);
                let longer = self@.take(index + 1);
                assert forall|i: int, j: int| 0 <= i < j < longer.len() implies bytes_precede(
                    #[trigger] longer[i],
                    #[trigger] longer[j],
                ) by {
                    if j < index {
                        assert(bytes_precede(shorter[i], shorter[j]));
                    } else if i < index - 1 {
                        assert(bytes_precede(shorter[i], shorter[index - 1]));
                        lemma_bytes_precede_transitive(shorter[i], a@, b@);
                    }
                }
            }
            index = index + 1;
        }
        assert(self@.take(index as int) =~= self@);
        true
    }

    /// The bytes behind the sequence.
    pub fn as_bytes(&self) -> (bytes: &'a [u8])
        ensures
            bytes@ == self.bytes(),
            self.wf(),
    {
        proof {
            use_type_invariant(self);
        }
        self.bytes
    }

    /// The number of entries.
    pub fn len(&self) -> (n: usize)
        ensures
            n == self@.len(),
    {
        self.count
    }

    /// Whether the sequence holds no entry.
    pub fn is_empty(&self) -> (b: bool)
        ensures
            b == (self@.len() == 0),
    {
        self.count == 0
    }

    /// The entry at `index` as text, or `None` where `index` is out of range.
    pub fn get(&self, index: usize) -> (r: Option<&'a str>)
        ensures
            index < self@.len() ==> r is Some && r->0.spec_bytes() == self@[index as int],
            index >= self@.len() ==> r is None,
    {
        if index < self.count {
            text_of(self.entry(index))
        } else {
            None
        }
    }

    /// How entry `index`, which is in range, stands to `key`.
    fn order_at(&self, index: usize, key: &[u8]) -> (o: Ordering)
        requires
            index < self@.len(),
        ensures
            o == bytes_order(nth(self@, index), key@),
    {
        compare_bytes(self.entry(index), key)
    }

    /// Binary search for `key`, comparing byte by byte.
    ///
    /// `Ok(i)` names an entry equal to `key`. `Err(p)` names a place where the
    /// entry before comes before `key` and the entry at `p` comes behind it, as
    /// far as there are such entries. In a sequence in ascending order `Err(p)`
    /// says more: no entry is equal to `key`, every entry before `p` comes
    /// before it and every entry from `p` on comes behind it, so that `p` is the
    /// place to insert at. On the empty sequence every search gives `Err(0)`.
    pub fn binary_search(&self, key: &str) -> (r: Result<usize, usize>)
        ensures
            match r {
                Ok(i) => i < self@.len() && nth(self@, i) == key.spec_bytes(),
                Err(p) => {
                    &&& p <= self@.len()
                    &&& p > 0 ==> bytes_precede(self@[p - 1], key.spec_bytes())
                    &&& p < self@.len() ==> bytes_precede(key.spec_bytes(), nth(self@, p))
                    &&& ascending(self@) ==> {
                        &&& forall|j: int|
                            0 <= j < p ==> bytes_precede(#[trigger] self@[j], key.spec_bytes())
                        &&& forall|j: int|
                            p <= j < self@.len() ==> bytes_precede(
                                key.spec_bytes(),
                                #[trigger] self@[j],
                            )
                    }
                },
            },
    {
        let wanted: &[u8] = key.as_bytes();
        let mut lo: usize = 0;
        let mut hi: usize = self.len();
        while lo < hi
            invariant
                lo <= hi <= self@.len(),
                wanted@ == key.spec_bytes(),
                lo > 0 ==> bytes_precede(self@[lo - 1], wanted@),
                hi < self@.len() ==> bytes_precede(wanted@, nth(self@, hi)),
            decreases hi - lo,
        {
            let mid: usize = lo + (hi - lo) / 2;
            proof {
                lemma_bytes_totally_ordered(nth(self@, mid), wanted@);
            }
            match self.order_at(mid, wanted) {
                Ordering::Less => {
                    lo = mid + 1;
                },
                Ordering::Equal => {
                    return Ok(mid);
                },
                Ordering::Greater => {
                    hi = mid;
                },
            }
        }
        proof {
            if ascending(self@) {
                assert forall|j: int| 0 <= j < lo implies bytes_precede(
                    #[trigger] self@[j],
                    wanted@,
                ) by {
                    if j < lo - 1 {
                        lemma_not_after_then_before(self@[j], self@[lo - 1], wanted@);
                    }
                }
                assert forall|j: int| lo <= j < self@.len() implies bytes_precede(
                    wanted@,
                    #[trigger] self@[j],
                ) by {
                    if lo < j {
                        lemma_before_then_not_after(wanted@, nth(self@, lo), self@[j]);
                    }
                }
            }
        }
        Err(lo)
    }
}

} // verus!
