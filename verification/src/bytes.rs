//! Little-endian views of 32-bit words.
//!
//! A payload word is four bytes read little-endian; the encoder reasons about
//! one 8-bit lane at a time, so the conversions in both directions carry
//! exact per-lane contracts.

use vstd::prelude::*;

verus! {

/// Value of a four-byte sequence read as a little-endian 32-bit integer.
pub open spec fn le32(s: Seq<u8>) -> int
    recommends
        s.len() == 4,
{
    s[0] + 0x100 * s[1] + 0x10000 * s[2] + 0x1000000 * s[3]
}

/// Multiplier of lane `i` in the little-endian reading of a word.
pub open spec fn lane_weight(i: int) -> int {
    if i == 0 {
        1
    } else if i == 1 {
        0x100
    } else if i == 2 {
        0x10000
    } else {
        0x1000000
    }
}

/// Byte of `v` at lane `i` (lane 0 is least significant).
pub open spec fn byte_of(v: u32, i: int) -> u8 {
    (((v as int) / lane_weight(i)) % 0x100) as u8
}

/// The four bytes of `v`, lane 0 first.
pub open spec fn bytes_of(v: u32) -> Seq<u8> {
    Seq::new(4, |i: int| byte_of(v, i))
}

/// A chunk shorter than four bytes is zero-extended on the high side;
/// a longer one is read by its first four bytes.
pub open spec fn pad4(s: Seq<u8>) -> Seq<u8> {
    Seq::new(4, |i: int| if i < s.len() { s[i] } else { 0u8 })
}

/// Little-endian value of a payload chunk of any length.
pub open spec fn chunk_value(s: Seq<u8>) -> int {
    le32(pad4(s))
}

/// Reading the four extracted lanes back little-endian gives the word.
pub proof fn lemma_le32_bytes_of(v: u32)
    ensures
        le32(bytes_of(v)) == v,
        forall|i: int| 0 <= i < 4 ==> #[trigger] bytes_of(v)[i] == byte_of(v, i),
{
    assert(((v as int) / 1) % 0x100 + 0x100 * (((v as int) / 0x100) % 0x100) + 0x10000 * (((v
        as int) / 0x10000) % 0x100) + 0x1000000 * (((v as int) / 0x1000000) % 0x100) == v)
        by (bit_vector);
}

/// A four-byte sequence is exactly the lane decomposition of its value.
pub proof fn lemma_bytes_of_le32(s: Seq<u8>)
    requires
        s.len() == 4,
        0 <= le32(s) < 0x100000000,
    ensures
        bytes_of(le32(s) as u32) == s,
{
    let b0 = s[0];
    let b1 = s[1];
    let b2 = s[2];
    let b3 = s[3];
    let v = le32(s) as u32;
    assert(v == b0 + 0x100 * b1 + 0x10000 * b2 + 0x1000000 * b3);
    assert((b0 + 0x100 * b1 + 0x10000 * b2 + 0x1000000 * b3 == v) ==> (((v as int) / 1) % 0x100
        == b0 && ((v as int) / 0x100) % 0x100 == b1 && ((v as int) / 0x10000) % 0x100 == b2 && ((
    v as int) / 0x1000000) % 0x100 == b3)) by (bit_vector);
    assert(bytes_of(v) =~= s);
}

/// Any four-byte little-endian value fits in 32 bits.
pub proof fn lemma_le32_bound(s: Seq<u8>)
    requires
        s.len() == 4,
    ensures
        0 <= le32(s) < 0x100000000,
{
}

/// Single lane extraction by mask and shift.
///
/// `shift` must be a multiple of 8 below 32; the result is the byte of
/// `value` at lane `shift / 8`.
pub fn decompose_shift(value: u32, shift: u8) -> (r: u8)
    requires
        shift == 0 || shift == 8 || shift == 16 || shift == 24,
    ensures
        r == byte_of(value, shift as int / 8),
{
    let r = ((value & (0xFF << shift)) >> shift) as u8;
    proof {
        assert((shift == 0 || shift == 8 || shift == 16 || shift == 24) ==> (((value & (0xFFu32
            << shift)) >> shift) as u8 == (((value as int) / (if shift == 0 {
            1int
        } else if shift == 8 {
            0x100int
        } else if shift == 16 {
            0x10000int
        } else {
            0x1000000int
        })) % 0x100) as u8)) by (bit_vector);
    }
    r
}

/// Splits a 32-bit value into its four lane bytes, lane 0 first.
pub fn decompose(value: u32) -> (r: Vec<u8>)
    ensures
        r@.len() == 4,
        r@ == bytes_of(value),
        forall|i: int| 0 <= i < 4 ==> #[trigger] r@[i] == byte_of(value, i),
{
    let mut result: Vec<u8> = Vec::new();
    let mut i: u8 = 0;
    while i < 4
        invariant
            i <= 4,
            result@.len() == i,
            forall|j: int| 0 <= j < i ==> #[trigger] result@[j] == byte_of(value, j),
        decreases 4 - i,
    {
        result.push(decompose_shift(value, i * 8));
        i = i + 1;
    }
    proof {
        assert(result@ =~= bytes_of(value));
    }
    result
}

/// Reads up to four bytes as a little-endian 32-bit value; shorter input is
/// zero-extended on the high side, extra bytes are ignored.
pub fn compose(value: &[u8]) -> (r: u32)
    ensures
        r == chunk_value(value@),
{
    let n = value.len();
    let b0: u32 = if n > 0 { value[0] as u32 } else { 0 };
    let b1: u32 = if n > 1 { value[1] as u32 } else { 0 };
    let b2: u32 = if n > 2 { value[2] as u32 } else { 0 };
    let b3: u32 = if n > 3 { value[3] as u32 } else { 0 };
    let r = b0 + 0x100 * b1 + 0x10000 * b2 + 0x1000000 * b3;
    proof {
        assert(pad4(value@)[0] == (if value@.len() > 0 { value@[0] } else { 0u8 }));
        assert(pad4(value@)[1] == (if value@.len() > 1 { value@[1] } else { 0u8 }));
        assert(pad4(value@)[2] == (if value@.len() > 2 { value@[2] } else { 0u8 }));
        assert(pad4(value@)[3] == (if value@.len() > 3 { value@[3] } else { 0u8 }));
    }
    r
}

} // verus!
