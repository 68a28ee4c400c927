//! Era codes: short ASCII names such as `heisei`, held in sixteen bytes.

use crate::codec::Record;
use crate::text::text_of;
use vstd::prelude::*;
use vstd::slice::slice_subrange;
use vstd::string::StringSliceAdditionalSpecFns;
use vstd::utf8::{
    is_leading_byte_width_1, partial_valid_utf8, partial_valid_utf8_extend_ascii_block,
    valid_utf8,
};

verus! {

/// Whether sixteen bytes are an era code: ASCII, and behind the first zero
/// byte nothing but zero bytes.
pub open spec fn well_formed_code(bytes: Seq<u8>) -> bool {
    &&& bytes.len() == 16
    &&& forall|i: int| 0 <= i < 16 ==> #[trigger] bytes[i] < 128
    &&& forall|i: int, j: int|
        0 <= i <= j < 16 && #[trigger] bytes[i] == 0 ==> #[trigger] bytes[j] == 0
}

/// Whether `text` can be the name of an era: at most sixteen bytes, each of
/// them ASCII and none of them zero.
pub open spec fn is_code_text(text: Seq<u8>) -> bool {
    &&& text.len() <= 16
    &&& forall|i: int| 0 <= i < text.len() ==> 0 < #[trigger] text[i] < 128
}

/// `text` followed by zero bytes up to a length of sixteen.
pub open spec fn padded(text: Seq<u8>) -> Seq<u8> {
    Seq::new(
        16,
        |i: int|
            if i < text.len() {
                text[i]
            } else {
                0u8
            },
    )
}

/// How many bytes stand before the first zero byte.
pub open spec fn text_len(bytes: Seq<u8>) -> nat
    decreases bytes.len(),
{
    if bytes.len() == 0 || bytes[0] == 0 {
        0
    } else {
        1 + text_len(bytes.skip(1))
    }
}

/// A run of non-zero bytes that ends at a zero byte, or at the end, is the
/// text.
pub proof fn lemma_text_len_is(bytes: Seq<u8>, k: int)
    requires
        0 <= k <= bytes.len(),
        forall|i: int| 0 <= i < k ==> bytes[i] != 0,
        k < bytes.len() ==> bytes[k] == 0,
    ensures
        text_len(bytes) == k,
    decreases bytes.len(),
{
    if k > 0 {
        assert(bytes[0] != 0);
        assert forall|i: int| 0 <= i < k - 1 implies bytes.skip(1)[i] != 0 by {
            assert(bytes[i + 1] != 0);
        }
        lemma_text_len_is(bytes.skip(1), k - 1);
    }
}

/// The text is a run of non-zero bytes that ends at a zero byte or at the end.
pub proof fn lemma_text_len(bytes: Seq<u8>)
    ensures
        text_len(bytes) <= bytes.len(),
        forall|i: int| 0 <= i < text_len(bytes) ==> bytes[i] != 0,
        text_len(bytes) < bytes.len() ==> bytes[text_len(bytes) as int] == 0,
    decreases bytes.len(),
{
    if bytes.len() == 0 || bytes[0] == 0 {
    } else {
        lemma_text_len(bytes.skip(1));
        let k = text_len(bytes.skip(1)) as int;
        assert forall|i: int| 0 <= i < text_len(bytes) implies bytes[i] != 0 by {
            if i > 0 {
                assert(bytes.skip(1)[i - 1] != 0);
            }
        }
        if k + 1 < bytes.len() {
            assert(bytes.skip(1)[k] == bytes[k + 1]);
        }
    }
}

/// Padding a name gives an era code whose text is the name.
pub proof fn lemma_padded(text: Seq<u8>)
    requires
        is_code_text(text),
    ensures
        well_formed_code(padded(text)),
        text_len(padded(text)) == text.len(),
        padded(text).take(text.len() as int) == text,
{
    let p = padded(text);
    assert forall|i: int| 0 <= i < 16 implies #[trigger] p[i] < 128 by {
        if i < text.len() {
            assert(0 < text[i] < 128);
        }
    }
    assert forall|i: int, j: int| 0 <= i <= j < 16 && #[trigger] p[i] == 0 implies #[trigger] p[j]
        == 0 by {
        if i < text.len() {
            assert(0 < text[i] < 128);
        }
    }
    assert forall|i: int| 0 <= i < text.len() implies p[i] != 0 by {
        assert(0 < text[i] < 128);
    }
    lemma_text_len_is(p, text.len() as int);
    assert(p.take(text.len() as int) =~= text);
}

/// ASCII bytes are UTF-8.
pub proof fn lemma_ascii_is_utf8(bytes: Seq<u8>)
    requires
        forall|i: int| 0 <= i < bytes.len() ==> #[trigger] bytes[i] < 128,
    ensures
        valid_utf8(bytes),
{
    assert forall|i: int| 0 <= i < bytes.len() implies #[trigger] is_leading_byte_width_1(
        bytes[i],
    ) by {
        let b = bytes[i];
        assert(b < 128 ==> b & 0x80 == 0) by (bit_vector);
    }
    assert(bytes.subrange(0, 0) =~= Seq::<u8>::empty());
    assert(partial_valid_utf8(bytes, 0));
    partial_valid_utf8_extend_ascii_block(bytes, 0, bytes.len() as int);
    assert(bytes.subrange(0, bytes.len() as int) =~= bytes);
}

/// The code of an era: up to sixteen ASCII bytes, none of them zero, stored
/// with zero bytes behind.
#[derive(Copy, Clone, PartialEq, Eq, PartialOrd, Ord, Hash, Debug)]
pub struct EraCode {
    raw: [u8; 16],
}

impl View for EraCode {
    type V = Seq<u8>;

    /// The sixteen stored bytes.
    closed spec fn view(&self) -> Seq<u8> {
        self.raw@
    }
}

impl EraCode {
    #[verifier::type_invariant]
    spec fn inv(self) -> bool {
        well_formed_code(self.raw@)
    }

    /// The name itself, without the zero bytes behind it.
    pub open spec fn text(&self) -> Seq<u8> {
        self@.take(text_len(self@) as int)
    }

    /// Takes sixteen bytes as an era code, if they are one.
    pub fn try_from_raw(raw: [u8; 16]) -> (r: Option<EraCode>)
        ensures
            r is Some <==> well_formed_code(raw@),
            r matches Some(code) ==> code@ == raw@,
    {
        let mut seen_zero: bool = false;
        let mut at: usize = 0;
        while at < 16
            invariant
                at <= 16,
                forall|i: int| 0 <= i < at ==> #[trigger] raw@[i] < 128,
                seen_zero <==> exists|i: int| 0 <= i < at && #[trigger] raw@[i] == 0,
                forall|i: int, j: int|
                    0 <= i <= j < at && #[trigger] raw@[i] == 0 ==> #[trigger] raw@[j] == 0,
            decreases 16 - at,
        {
            let b: u8 = raw[at];
            if b >= 128 {
                return None;
            }
            if b == 0 {
                seen_zero = true;
            } else if seen_zero {
                return None;
            }
            at = at + 1;
        }
        Some(EraCode { raw })
    }

    /// Makes the era code with the given name, if the name can be one: at
    /// most sixteen bytes, all ASCII, none zero.
    pub fn new(name: &str) -> (r: Option<EraCode>)
        ensures
            r is Some <==> is_code_text(name.spec_bytes()),
            r matches Some(code) ==> code@ == padded(name.spec_bytes()) && code.text()
                == name.spec_bytes(),
    {
        let bytes: &[u8] = name.as_bytes();
        let len: usize = bytes.len();
        if len > 16 {
            return None;
        }
        let mut raw: [u8; 16] = [0, 0, 0, 0, 0, 0, 0, 0, 0, 0, 0, 0, 0, 0, 0, 0];
        let mut at: usize = 0;
        while at < len
            invariant
                at <= len <= 16,
                len == bytes@.len(),
                bytes@ == name.spec_bytes(),
                forall|i: int| 0 <= i < at ==> 0 < #[trigger] bytes@[i] < 128,
                forall|i: int| 0 <= i < at ==> raw@[i] == bytes@[i],
                forall|i: int| at <= i < 16 ==> raw@[i] == 0,
            decreases len - at,
        {
            let b: u8 = bytes[at];
            if b == 0 || b >= 128 {
                assert(!(0 < bytes@[at as int] < 128));
                return None;
            }
            raw[at] = b;
            at = at + 1;
        }
        proof {
            lemma_padded(bytes@);
            assert(raw@ =~= padded(bytes@));
        }
        Some(EraCode { raw })
    }

    /// The sixteen stored bytes.
    pub fn all_bytes(&self) -> (raw: [u8; 16])
        ensures
            raw@ == self@,
            well_formed_code(raw@),
    {
        proof {
            use_type_invariant(self);
        }
        self.raw
    }

    /// The length of the name in bytes.
    pub fn len(&self) -> (n: usize)
        ensures
            n == text_len(self@),
            n <= 16,
    {
        let mut at: usize = 0;
        while at < 16 && self.raw[at] != 0
            invariant
                at <= 16,
                forall|i: int| 0 <= i < at ==> self.raw@[i] != 0,
            decreases 16 - at,
        {
            at = at + 1;
        }
        proof {
            lemma_text_len_is(self.raw@, at as int);
        }
        at
    }

    /// The name as text.
    pub fn as_str(&self) -> (name: &str)
        ensures
            name.spec_bytes() == self.text(),
    {
        proof {
            use_type_invariant(self);
        }
        let len: usize = self.len();
        let text: &[u8] = slice_subrange(self.raw.as_slice(), 0, len);
        proof {
            assert(text@ =~= self.text());
            lemma_ascii_is_utf8(text@);
        }
        match text_of(text) {
            Some(name) => name,
            None => "",
        }
    }
}

/// The era code that sixteen bytes stand for.
pub closed spec fn code_of(bytes: Seq<u8>) -> EraCode {
    EraCode {
        raw: [
            bytes[0],
            bytes[1],
            bytes[2],
            bytes[3],
            bytes[4],
            bytes[5],
            bytes[6],
            bytes[7],
            bytes[8],
            bytes[9],
            bytes[10],
            bytes[11],
            bytes[12],
            bytes[13],
            bytes[14],
            bytes[15],
        ],
    }
}

/// The bytes of the code that a pattern stands for are the pattern.
pub proof fn lemma_code_of(bytes: Seq<u8>)
    requires
        bytes.len() == 16,
    ensures
        code_of(bytes)@ == bytes,
{
    assert(code_of(bytes)@ =~= bytes);
}

/// A code is the code that its bytes stand for.
pub proof fn lemma_code_of_view(code: EraCode)
    ensures
        code@.len() == 16,
        code_of(code@) == code,
{
    assert(code_of(code@).raw =~= code.raw);
}

/// Tests the sixteen bytes at `at` for being an era code.
pub fn check_code(bytes: &[u8], at: usize) -> (ok: bool)
    requires
    at + 16 <= bytes@.len(),
    ensures
    ok == well_formed_code(bytes@.subrange(at as int, at + 16)),
{
    let len: usize = bytes.len();
    let mut seen_zero: bool = false;
    let mut k: usize = 0;
    let ghost field = bytes@.subrange(at as int, at + 16);
    while k < 16
        invariant
            k <= 16,
            len == bytes@.len(),
            at + 16 <= bytes@.len(),
            field == bytes@.subrange(at as int, at + 16),
            forall|i: int| 0 <= i < k ==> #[trigger] field[i] < 128,
            seen_zero <==> exists|i: int| 0 <= i < k && #[trigger] field[i] == 0,
            forall|i: int, j: int|
                0 <= i <= j < k && #[trigger] field[i] == 0 ==> #[trigger] field[j] == 0,
        decreases 16 - k,
    {
        let b: u8 = bytes[at + k];
        assert(b == field[k as int]);
        if b >= 128 {
            return false;
        }
        if b == 0 {
            seen_zero = true;
        } else if seen_zero {
            return false;
        }
        k = k + 1;
    }
    true
}

/// Decodes the sixteen bytes at `at`, which are an era code.
pub fn read_code(bytes: &[u8], at: usize) -> (code: EraCode)
    requires
    at + 16 <= bytes@.len(),
    well_formed_code(bytes@.subrange(at as int, at + 16)),
    ensures
    code == code_of(bytes@.subrange(at as int, at + 16)),
{
    let len: usize = bytes.len();
    let raw: [u8; 16] = [
        bytes[at],
        bytes[at + 1],
        bytes[at + 2],
        bytes[at + 3],
        bytes[at + 4],
        bytes[at + 5],
        bytes[at + 6],
        bytes[at + 7],
        bytes[at + 8],
        bytes[at + 9],
        bytes[at + 10],
        bytes[at + 11],
        bytes[at + 12],
        bytes[at + 13],
        bytes[at + 14],
        bytes[at + 15],
    ];
    proof {
        assert(raw@ =~= bytes@.subrange(at as int, at + 16));
        assert(raw =~= code_of(bytes@.subrange(at as int, at + 16)).raw);
    }
    EraCode { raw }
}

impl Record<16> for EraCode {
    open spec fn in_domain(&self) -> bool {
        well_formed_code(self@)
    }

    /// The sixteen stored bytes as they are.
    open spec fn encode(&self) -> Seq<u8> {
        self@
    }

    open spec fn decode(bytes: Seq<u8>) -> Self {
        code_of(bytes)
    }

    open spec fn legal(bytes: Seq<u8>) -> bool {
        well_formed_code(bytes)
    }

    proof fn lemma_encode_decode(v: Self) {
        lemma_code_of_view(v);
    }

    proof fn lemma_decode_encode(bytes: Seq<u8>) {
        lemma_code_of(bytes);
    }

    fn check(bytes: &[u8], at: usize) -> (ok: bool) {
        check_code(bytes, at)
    }

    fn read(bytes: &[u8], at: usize) -> (v: Self) {
        read_code(bytes, at)
    }

    fn write(&self) -> (out: [u8; 16]) {
        self.raw
    }
}

} // verus!
