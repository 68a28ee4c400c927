//! Integers as records: one byte, or four bytes with the least significant
//! byte first, whatever the byte order of the machine.

use crate::codec::Record;
use vstd::prelude::*;

verus! {

/// The unsigned value of four bytes, least significant first.
pub open spec fn le_u32(bytes: Seq<u8>) -> u32 {
    (bytes[0] + 256 * bytes[1] + 65536 * bytes[2] + 16777216 * bytes[3]) as u32
}

/// The four bytes of an unsigned value, least significant first.
pub open spec fn u32_le_bytes(v: u32) -> Seq<u8> {
    seq![
        (v % 256) as u8,
        ((v / 256) % 256) as u8,
        ((v / 65536) % 256) as u8,
        (v / 16777216) as u8,
    ]
}

/// The two's-complement value of four bytes, least significant first.
pub open spec fn le_i32(bytes: Seq<u8>) -> i32 {
    if le_u32(bytes) >= 0x8000_0000 {
        (le_u32(bytes) - 0x1_0000_0000) as i32
    } else {
        le_u32(bytes) as i32
    }
}

/// The unsigned value with the same 32 bits as `v`.
pub open spec fn i32_bits(v: i32) -> u32 {
    if v < 0 {
        (v + 0x1_0000_0000) as u32
    } else {
        v as u32
    }
}

/// The four bytes of a signed value in two's complement, least significant
/// first.
pub open spec fn i32_le_bytes(v: i32) -> Seq<u8> {
    u32_le_bytes(i32_bits(v))
}

/// Splitting a sum of four weighted bytes gives the bytes back.
proof fn lemma_split_bytes(b0: int, b1: int, b2: int, b3: int)
    requires
        0 <= b0 < 256,
        0 <= b1 < 256,
        0 <= b2 < 256,
        0 <= b3 < 256,
    ensures
        0 <= b0 + 256 * b1 + 65536 * b2 + 16777216 * b3 < 0x1_0000_0000,
        (b0 + 256 * b1 + 65536 * b2 + 16777216 * b3) % 256 == b0,
        ((b0 + 256 * b1 + 65536 * b2 + 16777216 * b3) / 256) % 256 == b1,
        ((b0 + 256 * b1 + 65536 * b2 + 16777216 * b3) / 65536) % 256 == b2,
        (b0 + 256 * b1 + 65536 * b2 + 16777216 * b3) / 16777216 == b3,
{
    let v = b0 + 256 * b1 + 65536 * b2 + 16777216 * b3;
    let q1 = b1 + 256 * b2 + 65536 * b3;
    let q2 = b2 + 256 * b3;
    assert(v == b0 + 256 * q1);
    assert(v / 256 == q1 && v % 256 == b0);
    assert(q1 == b1 + 256 * q2);
    assert(q1 / 256 == q2 && q1 % 256 == b1);
    assert(v == (b0 + 256 * b1) + 65536 * q2);
    assert(v / 65536 == q2);
    assert(q2 % 256 == b2);
    assert(v == (b0 + 256 * b1 + 65536 * b2) + 16777216 * b3);
    assert(v / 16777216 == b3);
}

/// Four bytes are the bytes of the value they hold.
proof fn lemma_bytes_of_le_u32(bytes: Seq<u8>)
    requires
        bytes.len() == 4,
    ensures
        u32_le_bytes(le_u32(bytes)) == bytes,
{
    lemma_split_bytes(bytes[0] as int, bytes[1] as int, bytes[2] as int, bytes[3] as int);
    assert(u32_le_bytes(le_u32(bytes)) =~= bytes);
}

/// A value is held by its four bytes.
proof fn lemma_le_u32_of_bytes(v: u32)
    ensures
        u32_le_bytes(v).len() == 4,
        le_u32(u32_le_bytes(v)) == v,
{
    let q1 = v as int / 256;
    let q2 = v as int / 65536;
    let q3 = v as int / 16777216;
    assert(v == v % 256 + 256 * q1);
    assert(q2 == q1 / 256);
    assert(q1 == q1 % 256 + 256 * q2);
    assert(q3 == q2 / 256);
    assert(q2 == q2 % 256 + 256 * q3);
    assert(0 <= q3 < 256);
    assert(v == v % 256 + 256 * (q1 % 256) + 65536 * (q2 % 256) + 16777216 * q3);
    let bytes = u32_le_bytes(v);
    assert(bytes[0] == v % 256);
    assert(bytes[1] == q1 % 256);
    assert(bytes[2] == q2 % 256);
    assert(bytes[3] == q3);
}

/// Four bytes are the bytes of the signed value they hold.
pub proof fn lemma_bytes_of_le_i32(bytes: Seq<u8>)
    requires
        bytes.len() == 4,
    ensures
        i32_le_bytes(le_i32(bytes)) == bytes,
{
    lemma_bytes_of_le_u32(bytes);
    assert(i32_bits(le_i32(bytes)) == le_u32(bytes));
}

impl Record<1> for u8 {
    open spec fn in_domain(&self) -> bool {
        true
    }

    open spec fn encode(&self) -> Seq<u8> {
        seq![*self]
    }

    open spec fn decode(bytes: Seq<u8>) -> Self {
        bytes[0]
    }

    open spec fn legal(bytes: Seq<u8>) -> bool {
        bytes.len() == 1
    }

    proof fn lemma_encode_decode(v: Self) {
    }

    proof fn lemma_decode_encode(bytes: Seq<u8>) {
        assert(seq![bytes[0]] =~= bytes);
    }

    fn check(bytes: &[u8], at: usize) -> (ok: bool) {
        true
    }

    fn read(bytes: &[u8], at: usize) -> (v: Self) {
        bytes[at]
    }

    fn write(&self) -> (out: [u8; 1]) {
        let out: [u8; 1] = [*self];
        assert(out@ =~= self.encode());
        out
    }
}

/// Reads the four bytes at `at` as an unsigned value, least significant byte
/// first.
pub fn read_u32(bytes: &[u8], at: usize) -> (v: u32)
    requires
        at + 4 <= bytes@.len(),
    ensures
        v == le_u32(bytes@.subrange(at as int, at + 4)),
{
    let b0: u32 = bytes[at] as u32;
    let b1: u32 = bytes[at + 1] as u32;
    let b2: u32 = bytes[at + 2] as u32;
    let b3: u32 = bytes[at + 3] as u32;
    proof {
        let field = bytes@.subrange(at as int, at + 4);
        assert(field[0] == b0 && field[1] == b1 && field[2] == b2 && field[3] == b3);
        lemma_split_bytes(b0 as int, b1 as int, b2 as int, b3 as int);
    }
    b0 + 256 * b1 + 65536 * b2 + 16777216 * b3
}

/// The four bytes of an unsigned value, least significant first.
pub fn write_u32(v: u32) -> (out: [u8; 4])
    ensures
        out@ == u32_le_bytes(v),
{
    let out: [u8; 4] = [
        (v % 256) as u8,
        ((v / 256) % 256) as u8,
        ((v / 65536) % 256) as u8,
        (v / 16777216) as u8,
    ];
    assert(out@ =~= u32_le_bytes(v));
    out
}

/// Reads the four bytes at `at` as a signed value in two's complement, least
/// significant byte first.
pub fn read_i32(bytes: &[u8], at: usize) -> (v: i32)
    requires
        at + 4 <= bytes@.len(),
    ensures
        v == le_i32(bytes@.subrange(at as int, at + 4)),
{
    let bits: u32 = read_u32(bytes, at);
    if bits >= 0x8000_0000 {
        let low: u32 = bits - 0x8000_0000;
        low as i32 - 0x4000_0000 - 0x4000_0000
    } else {
        bits as i32
    }
}

/// The four bytes of a signed value in two's complement, least significant
/// first.
pub fn write_i32(v: i32) -> (out: [u8; 4])
    ensures
        out@ == i32_le_bytes(v),
{
    let bits: u32 = if v < 0 {
        let low: i32 = v + 0x4000_0000 + 0x4000_0000;
        low as u32 + 0x8000_0000
    } else {
        v as u32
    };
    write_u32(bits)
}

/// A signed value is held by its four bytes.
pub proof fn lemma_i32_round_trip(v: i32)
    ensures
        i32_le_bytes(v).len() == 4,
        le_i32(i32_le_bytes(v)) == v,
{
    lemma_le_u32_of_bytes(i32_bits(v));
}

impl Record<4> for u32 {
    open spec fn in_domain(&self) -> bool {
        true
    }

    open spec fn encode(&self) -> Seq<u8> {
        u32_le_bytes(*self)
    }

    open spec fn decode(bytes: Seq<u8>) -> Self {
        le_u32(bytes)
    }

    open spec fn legal(bytes: Seq<u8>) -> bool {
        bytes.len() == 4
    }

    proof fn lemma_encode_decode(v: Self) {
        lemma_le_u32_of_bytes(v);
    }

    proof fn lemma_decode_encode(bytes: Seq<u8>) {
        lemma_bytes_of_le_u32(bytes);
    }

    fn check(bytes: &[u8], at: usize) -> (ok: bool) {
        true
    }

    fn read(bytes: &[u8], at: usize) -> (v: Self) {
        read_u32(bytes, at)
    }

    fn write(&self) -> (out: [u8; 4]) {
        write_u32(*self)
    }
}

impl Record<4> for i32 {
    open spec fn in_domain(&self) -> bool {
        true
    }

    open spec fn encode(&self) -> Seq<u8> {
        i32_le_bytes(*self)
    }

    open spec fn decode(bytes: Seq<u8>) -> Self {
        le_i32(bytes)
    }

    open spec fn legal(bytes: Seq<u8>) -> bool {
        bytes.len() == 4
    }

    proof fn lemma_encode_decode(v: Self) {
        lemma_i32_round_trip(v);
    }

    proof fn lemma_decode_encode(bytes: Seq<u8>) {
        lemma_bytes_of_le_i32(bytes);
    }

    fn check(bytes: &[u8], at: usize) -> (ok: bool) {
        true
    }

    fn read(bytes: &[u8], at: usize) -> (v: Self) {
        read_i32(bytes, at)
    }

    fn write(&self) -> (out: [u8; 4]) {
        write_i32(*self)
    }
}

} // verus!
