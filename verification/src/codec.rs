//! Fixed-width integer encodings used by the RakNet wire format, as
//! mathematical byte sequences, with the lemmas that decoding undoes
//! encoding and vice versa.

use vstd::prelude::*;

verus! {

/// Little-endian bytes of a 16-bit value.
pub open spec fn u16_le_bytes(v: u16) -> Seq<u8> {
    seq![v as u8, (v >> 8u16) as u8]
}

/// Big-endian bytes of a 16-bit value.
pub open spec fn u16_be_bytes(v: u16) -> Seq<u8> {
    seq![(v >> 8u16) as u8, v as u8]
}

/// The 16-bit value of two bytes given low byte first.
pub open spec fn u16_from_bytes(lo: u8, hi: u8) -> u16 {
    (lo as u16) | ((hi as u16) << 8u16)
}

/// The 16-bit value of two little-endian bytes.
pub open spec fn u16_le_value(s: Seq<u8>) -> u16 {
    u16_from_bytes(s[0], s[1])
}

/// The 16-bit value of two big-endian bytes.
pub open spec fn u16_be_value(s: Seq<u8>) -> u16 {
    u16_from_bytes(s[1], s[0])
}

/// Little-endian bytes of a 24-bit value held in a `u32`.
pub open spec fn u24_le_bytes(v: u32) -> Seq<u8> {
    seq![v as u8, (v >> 8u32) as u8, (v >> 16u32) as u8]
}

/// The 24-bit value of three bytes given lowest byte first.
pub open spec fn u24_from_bytes(b0: u8, b1: u8, b2: u8) -> u32 {
    (b0 as u32) | ((b1 as u32) << 8u32) | ((b2 as u32) << 16u32)
}

/// The 24-bit value of three little-endian bytes.
pub open spec fn u24_le_value(s: Seq<u8>) -> u32 {
    u24_from_bytes(s[0], s[1], s[2])
}

/// Little-endian bytes of a 32-bit value.
pub open spec fn u32_le_bytes(v: u32) -> Seq<u8> {
    seq![v as u8, (v >> 8u32) as u8, (v >> 16u32) as u8, (v >> 24u32) as u8]
}

/// Big-endian bytes of a 32-bit value.
pub open spec fn u32_be_bytes(v: u32) -> Seq<u8> {
    seq![(v >> 24u32) as u8, (v >> 16u32) as u8, (v >> 8u32) as u8, v as u8]
}

/// The 32-bit value of four bytes given lowest byte first.
pub open spec fn u32_from_bytes(b0: u8, b1: u8, b2: u8, b3: u8) -> u32 {
    (b0 as u32) | ((b1 as u32) << 8u32) | ((b2 as u32) << 16u32) | ((b3 as u32) << 24u32)
}

/// The 32-bit value of four little-endian bytes.
pub open spec fn u32_le_value(s: Seq<u8>) -> u32 {
    u32_from_bytes(s[0], s[1], s[2], s[3])
}

/// The 32-bit value of four big-endian bytes.
pub open spec fn u32_be_value(s: Seq<u8>) -> u32 {
    u32_from_bytes(s[3], s[2], s[1], s[0])
}

/// Big-endian bytes of a 64-bit value.
pub open spec fn u64_be_bytes(v: u64) -> Seq<u8> {
    seq![
        (v >> 56u64) as u8,
        (v >> 48u64) as u8,
        (v >> 40u64) as u8,
        (v >> 32u64) as u8,
        (v >> 24u64) as u8,
        (v >> 16u64) as u8,
        (v >> 8u64) as u8,
        v as u8,
    ]
}

/// The 64-bit value of eight bytes given highest byte first.
pub open spec fn u64_from_be(
    b0: u8,
    b1: u8,
    b2: u8,
    b3: u8,
    b4: u8,
    b5: u8,
    b6: u8,
    b7: u8,
) -> u64 {
    ((b0 as u64) << 56u64) | ((b1 as u64) << 48u64) | ((b2 as u64) << 40u64) | ((b3 as u64)
        << 32u64) | ((b4 as u64) << 24u64) | ((b5 as u64) << 16u64) | ((b6 as u64) << 8u64) | (
    b7 as u64)
}

/// The 64-bit value of eight big-endian bytes.
pub open spec fn u64_be_value(s: Seq<u8>) -> u64 {
    u64_from_be(s[0], s[1], s[2], s[3], s[4], s[5], s[6], s[7])
}

/// Decoding the little-endian bytes of a 16-bit value gives the value back.
pub proof fn lemma_u16_le_roundtrip(v: u16)
    ensures
        u16_le_value(u16_le_bytes(v)) == v,
        u16_be_value(u16_be_bytes(v)) == v,
{
    assert(u16_from_bytes(v as u8, (v >> 8u16) as u8) == v) by (bit_vector);
}

/// Encoding the value of two bytes gives the bytes back.
pub proof fn lemma_u16_bytes_roundtrip(s: Seq<u8>)
    requires
        s.len() == 2,
    ensures
        u16_le_bytes(u16_le_value(s)) == s,
        u16_be_bytes(u16_be_value(s)) == s,
{
    let (a, b) = (s[0], s[1]);
    assert(u16_from_bytes(a, b) as u8 == a && (u16_from_bytes(a, b) >> 8u16) as u8 == b)
        by (bit_vector);
    assert(u16_from_bytes(b, a) as u8 == b && (u16_from_bytes(b, a) >> 8u16) as u8 == a)
        by (bit_vector);
    assert(u16_le_bytes(u16_le_value(s)) =~= s);
    assert(u16_be_bytes(u16_be_value(s)) =~= s);
}

/// Decoding the little-endian bytes of a 24-bit value gives the value back.
pub proof fn lemma_u24_le_roundtrip(v: u32)
    requires
        v < 0x1000000,
    ensures
        u24_le_value(u24_le_bytes(v)) == v,
{
    assert(v < 0x1000000 ==> u24_from_bytes(v as u8, (v >> 8u32) as u8, (v >> 16u32) as u8)
        == v) by (bit_vector);
}

/// Three bytes always hold a value below 2^24, and encoding that value
/// gives the bytes back.
pub proof fn lemma_u24_bytes_roundtrip(s: Seq<u8>)
    requires
        s.len() == 3,
    ensures
        u24_le_value(s) < 0x1000000,
        u24_le_bytes(u24_le_value(s)) == s,
{
    let (a, b, c) = (s[0], s[1], s[2]);
    assert(u24_from_bytes(a, b, c) < 0x1000000) by (bit_vector);
    assert(u24_from_bytes(a, b, c) as u8 == a && (u24_from_bytes(a, b, c) >> 8u32) as u8 == b
        && (u24_from_bytes(a, b, c) >> 16u32) as u8 == c) by (bit_vector);
    assert(u24_le_bytes(u24_le_value(s)) =~= s);
}

/// Decoding the bytes of a 32-bit value gives the value back.
pub proof fn lemma_u32_roundtrip(v: u32)
    ensures
        u32_le_value(u32_le_bytes(v)) == v,
        u32_be_value(u32_be_bytes(v)) == v,
{
    assert(u32_from_bytes(v as u8, (v >> 8u32) as u8, (v >> 16u32) as u8, (v >> 24u32) as u8)
        == v) by (bit_vector);
}

/// Encoding the value of four bytes gives the bytes back.
pub proof fn lemma_u32_bytes_roundtrip(s: Seq<u8>)
    requires
        s.len() == 4,
    ensures
        u32_le_bytes(u32_le_value(s)) == s,
        u32_be_bytes(u32_be_value(s)) == s,
{
    let (a, b, c, d) = (s[0], s[1], s[2], s[3]);
    assert({
        let x = u32_from_bytes(a, b, c, d);
        x as u8 == a && (x >> 8u32) as u8 == b && (x >> 16u32) as u8 == c && (x >> 24u32) as u8
            == d
    }) by (bit_vector);
    assert({
        let x = u32_from_bytes(d, c, b, a);
        x as u8 == d && (x >> 8u32) as u8 == c && (x >> 16u32) as u8 == b && (x >> 24u32) as u8
            == a
    }) by (bit_vector);
    assert(u32_le_bytes(u32_le_value(s)) =~= s);
    assert(u32_be_bytes(u32_be_value(s)) =~= s);
}

/// Decoding the big-endian bytes of a 64-bit value gives the value back.
pub proof fn lemma_u64_roundtrip(v: u64)
    ensures
        u64_be_value(u64_be_bytes(v)) == v,
{
    assert(u64_from_be(
        (v >> 56u64) as u8,
        (v >> 48u64) as u8,
        (v >> 40u64) as u8,
        (v >> 32u64) as u8,
        (v >> 24u64) as u8,
        (v >> 16u64) as u8,
        (v >> 8u64) as u8,
        v as u8,
    ) == v) by (bit_vector);
}

/// Encoding the value of eight bytes gives the bytes back.
pub proof fn lemma_u64_bytes_roundtrip(s: Seq<u8>)
    requires
        s.len() == 8,
    ensures
        u64_be_bytes(u64_be_value(s)) == s,
{
    let (b0, b1, b2, b3, b4, b5, b6, b7) = (s[0], s[1], s[2], s[3], s[4], s[5], s[6], s[7]);
    assert({
        let x = u64_from_be(b0, b1, b2, b3, b4, b5, b6, b7);
        &&& (x >> 56u64) as u8 == b0
        &&& (x >> 48u64) as u8 == b1
        &&& (x >> 40u64) as u8 == b2
        &&& (x >> 32u64) as u8 == b3
        &&& (x >> 24u64) as u8 == b4
        &&& (x >> 16u64) as u8 == b5
        &&& (x >> 8u64) as u8 == b6
        &&& x as u8 == b7
    }) by (bit_vector);
    assert(u64_be_bytes(u64_be_value(s)) =~= s);
}

} // verus!
