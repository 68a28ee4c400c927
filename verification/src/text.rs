//! Byte strings: their order, byte by byte, and when they are text.

use core::cmp::Ordering;
use vstd::prelude::*;
use vstd::string::StringSliceAdditionalSpecFns;
use vstd::utf8::valid_utf8;

verus! {

/// How many leading bytes `a` and `b` have in common.
pub open spec fn common_prefix(a: Seq<u8>, b: Seq<u8>) -> nat
    decreases a.len(),
{
    if a.len() == 0 || b.len() == 0 || a[0] != b[0] {
        0
    } else {
        1 + common_prefix(a.skip(1), b.skip(1))
    }
}

/// Whether `a` comes strictly before `b` byte by byte: at the first place where
/// they differ `a` has the smaller byte, or `a` ends there and `b` goes on.
pub open spec fn bytes_precede(a: Seq<u8>, b: Seq<u8>) -> bool {
    let k = common_prefix(a, b) as int;
    if k < a.len() && k < b.len() {
        a[k] < b[k]
    } else {
        a.len() < b.len()
    }
}

/// How `a` stands to `b` byte by byte.
pub open spec fn bytes_order(a: Seq<u8>, b: Seq<u8>) -> Ordering {
    if bytes_precede(a, b) {
        Ordering::Less
    } else if a == b {
        Ordering::Equal
    } else {
        Ordering::Greater
    }
}

/// The common prefix is the longest run of equal leading bytes.
pub proof fn lemma_common_prefix(a: Seq<u8>, b: Seq<u8>)
    ensures
        common_prefix(a, b) <= a.len(),
        common_prefix(a, b) <= b.len(),
        forall|i: int| 0 <= i < common_prefix(a, b) ==> a[i] == b[i],
        common_prefix(a, b) < a.len() && common_prefix(a, b) < b.len() ==> a[common_prefix(
            a,
            b,
        ) as int] != b[common_prefix(a, b) as int],
    decreases a.len(),
{
    if a.len() == 0 || b.len() == 0 || a[0] != b[0] {
    } else {
        lemma_common_prefix(a.skip(1), b.skip(1));
        let k = common_prefix(a.skip(1), b.skip(1)) as int;
        assert forall|i: int| 0 <= i < common_prefix(a, b) implies a[i] == b[i] by {
            if i > 0 {
                assert(a.skip(1)[i - 1] == b.skip(1)[i - 1]);
            }
        }
        if k + 1 < a.len() && k + 1 < b.len() {
            assert(a.skip(1)[k] == a[k + 1]);
            assert(b.skip(1)[k] == b[k + 1]);
        }
    }
}

/// A run of equal leading bytes that ends at a difference, or at the end of
/// one of the two, is the common prefix.
pub proof fn lemma_common_prefix_is(a: Seq<u8>, b: Seq<u8>, k: int)
    requires
        0 <= k <= a.len(),
        k <= b.len(),
        forall|i: int| 0 <= i < k ==> a[i] == b[i],
        k < a.len() && k < b.len() ==> a[k] != b[k],
    ensures
        common_prefix(a, b) == k,
    decreases a.len(),
{
    if k == 0 {
    } else {
        assert(a[0] == b[0]);
        assert forall|i: int| 0 <= i < k - 1 implies a.skip(1)[i] == b.skip(1)[i] by {
            assert(a[i + 1] == b[i + 1]);
        }
        lemma_common_prefix_is(a.skip(1), b.skip(1), k - 1);
    }
}

/// Of two byte strings exactly one comes first, or they are equal.
pub proof fn lemma_bytes_totally_ordered(a: Seq<u8>, b: Seq<u8>)
    ensures
        bytes_precede(a, b) || a == b || bytes_precede(b, a),
        !(bytes_precede(a, b) && bytes_precede(b, a)),
        !bytes_precede(a, a),
{
    lemma_common_prefix(a, b);
    lemma_common_prefix(b, a);
    lemma_common_prefix(a, a);
    let k = common_prefix(a, b) as int;
    lemma_common_prefix_is(b, a, k);
    lemma_common_prefix_is(a, a, a.len() as int);
    if !(k < a.len() && k < b.len()) && a.len() == b.len() {
        assert(a =~= b);
    }
}

/// Coming first carries over.
pub proof fn lemma_bytes_precede_transitive(a: Seq<u8>, b: Seq<u8>, c: Seq<u8>)
    requires
        bytes_precede(a, b),
        bytes_precede(b, c),
    ensures
        bytes_precede(a, c),
{
    lemma_common_prefix(a, b);
    lemma_common_prefix(b, c);
    let j = common_prefix(a, b) as int;
    let k = common_prefix(b, c) as int;
    if j < k {
        // a and b part at j, where c still agrees with b
        assert(c[j] == b[j]);
        assert forall|i: int| 0 <= i < j implies a[i] == c[i] by {
            assert(a[i] == b[i] && b[i] == c[i]);
        }
        lemma_common_prefix_is(a, c, j);
    } else if k < j {
        // b and c part at k, where a still agrees with b
        assert(a[k] == b[k]);
        assert forall|i: int| 0 <= i < k implies a[i] == c[i] by {
            assert(a[i] == b[i] && b[i] == c[i]);
        }
        lemma_common_prefix_is(a, c, k);
    } else {
        assert forall|i: int| 0 <= i < j implies a[i] == c[i] by {
            assert(a[i] == b[i] && b[i] == c[i]);
        }
        lemma_common_prefix_is(a, c, j);
    }
}

/// Two byte strings are equal exactly when they have the same length and
/// their common prefix is all of them.
pub proof fn lemma_equal_by_prefix(a: Seq<u8>, b: Seq<u8>)
    ensures
        a == b <==> a.len() == b.len() && common_prefix(a, b) == a.len(),
{
    lemma_common_prefix(a, b);
    if a.len() == b.len() && common_prefix(a, b) == a.len() {
        assert(a =~= b);
    }
    if a == b {
        lemma_common_prefix_is(a, a, a.len() as int);
    }
}

/// The length of the common prefix of two byte strings.
fn shared_prefix(a: &[u8], b: &[u8]) -> (k: usize)
    ensures
        k == common_prefix(a@, b@),
        k <= a@.len(),
        k <= b@.len(),
{
    let mut k: usize = 0;
    while k < a.len() && k < b.len() && a[k] == b[k]
        invariant
            k <= a@.len(),
            k <= b@.len(),
            forall|i: int| 0 <= i < k ==> a@[i] == b@[i],
        decreases a@.len() - k,
    {
        k = k + 1;
    }
    proof {
        lemma_common_prefix_is(a@, b@, k as int);
    }
    k
}

/// Compares two byte strings byte by byte.
pub fn compare_bytes(a: &[u8], b: &[u8]) -> (o: Ordering)
    ensures
        o == bytes_order(a@, b@),
{
    let k: usize = shared_prefix(a, b);
    proof {
        lemma_equal_by_prefix(a@, b@);
    }
    if k < a.len() && k < b.len() {
        if a[k] < b[k] {
            Ordering::Less
        } else {
            Ordering::Greater
        }
    } else if a.len() < b.len() {
        Ordering::Less
    } else if a.len() > b.len() {
        Ordering::Greater
    } else {
        Ordering::Equal
    }
}

/// The text that `bytes` encodes, if they are UTF-8.
///
/// Calls `core::str::from_utf8`, which accepts exactly the well-formed UTF-8
/// byte strings and hands the same bytes back as a string slice. This is
/// taken from its documentation and not proved here.
#[verifier::external_body]
pub(crate) fn text_of(bytes: &[u8]) -> (r: Option<&str>)
    ensures
        r is Some <==> valid_utf8(bytes@),
        r matches Some(s) ==> s.spec_bytes() == bytes@,
{
    match core::str::from_utf8(bytes) {
        Ok(s) => Some(s),
        Err(_) => None,
    }
}

} // verus!
