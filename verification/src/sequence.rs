//! A byte buffer seen as a sequence of fixed-width records.

use crate::codec::{decode_all, nth, read_at, valid_buffer, validate, InvalidLayout, Record};
use crate::order::never_descends;
use core::cmp::Ordering;
use core::marker::PhantomData;
use vstd::prelude::*;

verus! {

/// A validated buffer of records of type `T`, each `W` bytes wide.
///
/// The buffer is checked once, when the sequence is made. Reading a record
/// decodes its bytes in place; nothing is copied and nothing can fail.
#[derive(Debug, PartialEq, Eq)]
pub struct Sequence<'a, T: Record<W>, const W: usize> {
    bytes: &'a [u8],
    marker: PhantomData<T>,
}

impl<'a, T: Record<W>, const W: usize> Clone for Sequence<'a, T, W> {
    /// Another view of the same bytes.
    fn clone(&self) -> (copy: Self)
        ensures
            copy == *self,
    {
        proof {
            use_type_invariant(self);
        }
        Sequence { bytes: self.bytes, marker: PhantomData }
    }
}

impl<'a, T: Record<W>, const W: usize> Copy for Sequence<'a, T, W> {

}

impl<'a, T: Record<W>, const W: usize> View for Sequence<'a, T, W> {
    type V = Seq<T>;

    /// The records in stored order.
    closed spec fn view(&self) -> Seq<T> {
        decode_all::<T, W>(self.bytes@)
    }
}

impl<'a, T: Record<W>, const W: usize> Sequence<'a, T, W> {
    #[verifier::type_invariant]
    spec fn inv(self) -> bool {
        valid_buffer::<T, W>(self.bytes@)
    }

    /// The bytes behind the sequence.
    pub closed spec fn bytes(&self) -> Seq<u8> {
        self.bytes@
    }

    /// The sequence is what its bytes decode to, and the bytes are valid.
    pub open spec fn wf(&self) -> bool {
        &&& valid_buffer::<T, W>(self.bytes())
        &&& self@ == decode_all::<T, W>(self.bytes())
    }

    /// Wraps `bytes` as a sequence of records, or refuses the buffer where it
    /// is not a whole number of legal records.
    pub fn from_bytes(bytes: &'a [u8]) -> (r: Result<Self, InvalidLayout>)
        ensures
            r is Ok <==> valid_buffer::<T, W>(bytes@),
            r matches Ok(s) ==> s.bytes() == bytes@ && s.wf(),
    {
        match validate::<T, W>(bytes) {
            Ok(()) => Ok(Sequence { bytes, marker: PhantomData }),
            Err(e) => Err(e),
        }
    }

    /// The bytes behind the sequence.
    pub fn as_bytes(&self) -> (bytes: &'a [u8])
        ensures
            bytes@ == self.bytes(),
            self.wf(),
    {
        proof {
            use_type_invariant(self);
        }
        self.bytes
    }

    /// The number of records.
    pub fn len(&self) -> (n: usize)
        ensures
            n == self@.len(),
    {
        proof {
            use_type_invariant(self);
        }
        self.bytes.len() / W
    }

    /// Whether the sequence holds no record.
    pub fn is_empty(&self) -> (b: bool)
        ensures
            b == (self@.len() == 0),
    {
        self.len() == 0
    }

    /// The record at `index`, which is in range.
    fn item(&self, index: usize) -> (v: T)
        requires
            index < self@.len(),
        ensures
            v == self@[index as int],
            v.in_domain(),
    {
        proof {
            use_type_invariant(self);
        }
        read_at::<T, W>(self.bytes, index)
    }

    /// The record at `index`, or `None` where `index` is out of range.
    pub fn get(&self, index: usize) -> (r: Option<T>)
        ensures
            index < self@.len() ==> r == Some(self@[index as int]),
            index >= self@.len() ==> r is None,
            r matches Some(v) ==> v.in_domain(),
    {
        if index < self.len() {
            Some(self.item(index))
        } else {
            None
        }
    }

    /// All records in stored order.
    pub fn to_vec(&self) -> (out: Vec<T>)
        ensures
            out@ == self@,
    {
        let n: usize = self.len();
        let mut out: Vec<T> = Vec::new();
        let mut index: usize = 0;
        while index < n
            invariant
                n == self@.len(),
                index <= n,
                out@ == self@.take(index as int),
            decreases n - index,
        {
            out.push(self.item(index));
            index = index + 1;
            assert(out@ =~= self@.take(index as int));
        }
        assert(self@.take(n as int) =~= self@);
        out
    }

    /// Binary search by a probe that says how a record stands to what is
    /// looked for.
    ///
    /// `Ok(i)` names a record that the probe called `Equal`: one of them, not
    /// always the first or the last. `Err(p)` names a place where the answers
    /// turn: the probe called the record before `p` `Less` and the record at
    /// `p` `Greater`, as far as there are such records. Where the probe never
    /// goes down along the sequence, `Err(p)` says more: no record is `Equal`,
    /// and `p` parts the `Less` records from the `Greater` ones, so that `p` is
    /// the place to insert at.
    pub fn binary_search_by<F: Fn(T) -> Ordering>(&self, probe: F) -> (r: Result<usize, usize>)
        requires
            forall|i: int| 0 <= i < self@.len() ==> call_requires(probe, (#[trigger] self@[i],)),
        ensures
            match r {
                Ok(i) => i < self@.len() && call_ensures(probe, (nth(self@, i),), Ordering::Equal),
                Err(p) => {
                    &&& p <= self@.len()
                    &&& p > 0 ==> call_ensures(probe, (self@[p - 1],), Ordering::Less)
                    &&& p < self@.len() ==> call_ensures(
                        probe,
                        (nth(self@, p),),
                        Ordering::Greater,
                    )
                    &&& never_descends(self@, probe) ==> {
                        &&& forall|j: int, o: Ordering|
                            0 <= j < p && call_ensures(probe, (self@[j],), o) ==> o
                                == Ordering::Less
                        &&& forall|j: int, o: Ordering|
                            p <= j < self@.len() && call_ensures(probe, (self@[j],), o) ==> o
                                == Ordering::Greater
                    }
                },
            },
    {
        let mut lo: usize = 0;
        let mut hi: usize = self.len();
        while lo < hi
            invariant
                lo <= hi <= self@.len(),
                forall|i: int|
                    0 <= i < self@.len() ==> call_requires(probe, (#[trigger] self@[i],)),
                lo > 0 ==> call_ensures(probe, (self@[lo - 1],), Ordering::Less),
                hi < self@.len() ==> call_ensures(probe, (nth(self@, hi),), Ordering::Greater),
            decreases hi - lo,
        {
            let mid: usize = lo + (hi - lo) / 2;
            match probe(self.item(mid)) {
                Ordering::Less => {
                    lo = mid + 1;
                },
                Ordering::Equal => {
                    return Ok(mid);
                },
                Ordering::Greater => {
                    hi = mid;
                },
            }
        }
        Err(lo)
    }
}

} // verus!
