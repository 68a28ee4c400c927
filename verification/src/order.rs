//! Comparison results as numbers, to say that a comparison never goes down
//! along a sorted sequence.

use core::cmp::Ordering;
use vstd::prelude::*;

verus! {

/// `Less` is 0, `Equal` is 1, `Greater` is 2.
pub open spec fn rank(o: Ordering) -> int {
    match o {
        Ordering::Less => 0,
        Ordering::Equal => 1,
        Ordering::Greater => 2,
    }
}

/// Whether `probe` never goes down along `items`: whatever it answers for an
/// item, it answers nothing smaller for the items behind.
pub open spec fn never_descends<T, F: Fn(T) -> Ordering>(items: Seq<T>, probe: F) -> bool {
    forall|i: int, j: int, a: Ordering, b: Ordering|
        0 <= i <= j < items.len() && call_ensures(probe, (items[i],), a) && call_ensures(
            probe,
            (items[j],),
            b,
        ) ==> rank(a) <= rank(b)
}

} // verus!
