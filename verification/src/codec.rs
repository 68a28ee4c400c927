//! Fixed-width records and buffers that hold a whole number of them.

use vstd::prelude::*;

verus! {

/// A buffer that breaks a structural rule of its layout: a length that is no
/// multiple of the record width, a field outside its domain, offsets that run
/// backwards, entries out of order.
#[derive(Debug, Clone, Copy, PartialEq, Eq, Structural)]
pub struct InvalidLayout;

/// A value with a canonical encoding of exactly `W` bytes.
///
/// `encode` is defined on every value; `legal` tells which byte patterns stand
/// for a value inside the type's domain, and on those `decode` inverts `encode`.
pub trait Record<const W: usize>: Sized {
    /// Whether every field lies in its declared domain.
    spec fn in_domain(&self) -> bool;

    /// The canonical bytes of the value, fields in declaration order.
    spec fn encode(&self) -> Seq<u8>;

    /// The value that `bytes` stands for.
    spec fn decode(bytes: Seq<u8>) -> Self;

    /// Whether `bytes` is `W` bytes long and stands for a value in the domain.
    spec fn legal(bytes: Seq<u8>) -> bool;

    /// Encoding gives `W` bytes that decode to the value again, and the bytes
    /// are legal exactly when the value is in its domain.
    proof fn lemma_encode_decode(v: Self)
        ensures
            v.encode().len() == W,
            Self::decode(v.encode()) == v,
            Self::legal(v.encode()) <==> v.in_domain(),
    ;

    /// Legal bytes are `W` long, decode into the domain and are the canonical
    /// encoding of what they decode to.
    proof fn lemma_decode_encode(bytes: Seq<u8>)
        requires
            Self::legal(bytes),
        ensures
            bytes.len() == W,
            Self::decode(bytes).in_domain(),
            Self::decode(bytes).encode() == bytes,
    ;

    /// Tests the `W` bytes at `at` for legality.
    fn check(bytes: &[u8], at: usize) -> (ok: bool)
        requires
            at + W <= bytes@.len(),
        ensures
            ok == Self::legal(bytes@.subrange(at as int, at + W)),
    ;

    /// Decodes the `W` bytes at `at`, which are legal.
    fn read(bytes: &[u8], at: usize) -> (v: Self)
        requires
            at + W <= bytes@.len(),
            Self::legal(bytes@.subrange(at as int, at + W)),
        ensures
            v == Self::decode(bytes@.subrange(at as int, at + W)),
    ;

    /// The canonical encoding of the value.
    fn write(&self) -> (out: [u8; W])
        ensures
            out@ == self.encode(),
    ;
}

/// The element of `s` at the machine index `index`.
pub open spec fn nth<T>(s: Seq<T>, index: usize) -> T {
    s[index as int]
}

/// The `index`-th run of `width` bytes in `bytes`.
pub open spec fn chunk(bytes: Seq<u8>, width: int, index: int) -> Seq<u8> {
    bytes.subrange(index * width, index * width + width)
}

/// How many records of `width` bytes fit in `bytes`.
pub open spec fn record_count(bytes: Seq<u8>, width: int) -> int {
    bytes.len() as int / width
}

/// Whether `bytes` is a whole number of records, each of them legal.
pub open spec fn valid_buffer<T: Record<W>, const W: usize>(bytes: Seq<u8>) -> bool {
    &&& W > 0
    &&& bytes.len() as int % (W as int) == 0
    &&& forall|i: int|
        0 <= i < record_count(bytes, W as int) ==> T::legal(#[trigger] chunk(bytes, W as int, i))
}

/// The records that a buffer holds, in stored order.
pub open spec fn decode_all<T: Record<W>, const W: usize>(bytes: Seq<u8>) -> Seq<T> {
    Seq::new(
        record_count(bytes, W as int) as nat,
        |i: int| T::decode(chunk(bytes, W as int, i)),
    )
}

/// Record `index` of a buffer starts at `index * width` and ends inside it.
pub proof fn lemma_chunk_bounds(len: int, width: int, index: int)
    requires
        width > 0,
        len >= 0,
        0 <= index < len / width,
    ensures
        0 <= index * width,
        index * width + width <= len,
        (index + 1) * width == index * width + width,
{
    assert(index * width + width <= len) by (nonlinear_arith)
        requires
            width > 0,
            len >= 0,
            0 <= index < len / width,
    ;
    assert(0 <= index * width) by (nonlinear_arith)
        requires
            width > 0,
            0 <= index,
    ;
    assert((index + 1) * width == index * width + width) by (nonlinear_arith);
}

/// Checks once, for the whole buffer, that it is a whole number of legal
/// records.
pub fn validate<T: Record<W>, const W: usize>(bytes: &[u8]) -> (r: Result<(), InvalidLayout>)
    ensures
        r is Ok <==> valid_buffer::<T, W>(bytes@),
{
    if W == 0 {
        return Err(InvalidLayout);
    }
    let len: usize = bytes.len();
    if len % W != 0 {
        return Err(InvalidLayout);
    }
    let count: usize = len / W;
    let mut index: usize = 0;
    let mut at: usize = 0;
    while index < count
        invariant
            W > 0,
            len == bytes@.len(),
            count == record_count(bytes@, W as int),
            0 <= index <= count,
            at == index * W,
            forall|i: int| 0 <= i < index ==> T::legal(#[trigger] chunk(bytes@, W as int, i)),
        decreases count - index,
    {
        proof {
            lemma_chunk_bounds(len as int, W as int, index as int);
        }
        if !T::check(bytes, at) {
            assert(!T::legal(chunk(bytes@, W as int, index as int)));
            return Err(InvalidLayout);
        }
        index = index + 1;
        at = at + W;
    }
    Ok(())
}

/// The record at `index` of a validated buffer.
pub fn read_at<T: Record<W>, const W: usize>(bytes: &[u8], index: usize) -> (v: T)
    requires
        valid_buffer::<T, W>(bytes@),
        index < record_count(bytes@, W as int),
    ensures
        v == decode_all::<T, W>(bytes@)[index as int],
        v.in_domain(),
{
    let len: usize = bytes.len();
    proof {
        lemma_chunk_bounds(len as int, W as int, index as int);
        T::lemma_decode_encode(chunk(bytes@, W as int, index as int));
        assert(T::legal(chunk(bytes@, W as int, index as int)));
    }
    T::read(bytes, index * W)
}

/// Writing a value and reading the bytes back gives the value: the encoding
/// of a value in its domain is a valid buffer of one record, and that record
/// is the value.
pub proof fn lemma_round_trip<T: Record<W>, const W: usize>(v: T)
    requires
        W > 0,
        v.in_domain(),
    ensures
        valid_buffer::<T, W>(v.encode()),
        decode_all::<T, W>(v.encode()) == seq![v],
{
    T::lemma_encode_decode(v);
    let bytes = v.encode();
    assert(record_count(bytes, W as int) == 1) by (nonlinear_arith)
        requires
            bytes.len() == W,
            W > 0,
    ;
    assert(chunk(bytes, W as int, 0) =~= bytes);
    assert forall|i: int| 0 <= i < record_count(bytes, W as int) implies T::legal(
        #[trigger] chunk(bytes, W as int, i),
    ) by {
        assert(i == 0);
    }
    assert(decode_all::<T, W>(bytes) =~= seq![v]);
}

} // verus!
