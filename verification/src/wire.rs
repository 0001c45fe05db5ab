//! Big-endian integers as they appear on the wire.

use vstd::prelude::*;

verus! {

/// The two bytes of `x`, most significant first.
pub open spec fn be16(x: u16) -> Seq<u8> {
    seq![(x / 256) as u8, (x % 256) as u8]
}

/// The four bytes of `x`, most significant first.
pub open spec fn be32(x: u32) -> Seq<u8> {
    seq![
        (x / 0x100_0000) as u8,
        (x / 0x1_0000 % 256) as u8,
        (x / 0x100 % 256) as u8,
        (x % 256) as u8,
    ]
}

/// The number whose big-endian bytes are `hi`, `lo`.
pub open spec fn from_be16(hi: u8, lo: u8) -> u16 {
    (hi as int * 256 + lo as int) as u16
}

/// The number whose big-endian bytes are `b0`, `b1`, `b2`, `b3`.
pub open spec fn from_be32(b0: u8, b1: u8, b2: u8, b3: u8) -> u32 {
    (b0 as int * 0x100_0000 + b1 as int * 0x1_0000 + b2 as int * 0x100 + b3 as int) as u32
}

/// The 16-bit number stored big-endian at `at` and `at + 1`.
pub open spec fn u16_at(bytes: Seq<u8>, at: int) -> u16 {
    from_be16(bytes[at], bytes[at + 1])
}

/// The 32-bit number stored big-endian at `at` .. `at + 3`.
pub open spec fn u32_at(bytes: Seq<u8>, at: int) -> u32 {
    from_be32(bytes[at], bytes[at + 1], bytes[at + 2], bytes[at + 3])
}

/// Reading back what `be16` wrote gives the number written, and writing what
/// was read gives the bytes read.
pub proof fn lemma_be16_inverse(x: u16, hi: u8, lo: u8)
    ensures
        from_be16(be16(x)[0], be16(x)[1]) == x,
        be16(from_be16(hi, lo)) == seq![hi, lo],
{
    assert(be16(from_be16(hi, lo)) =~= seq![hi, lo]);
}

/// Reading back what `be32` wrote gives the number written.
pub proof fn lemma_be32_inverse(x: u32)
    ensures
        from_be32(be32(x)[0], be32(x)[1], be32(x)[2], be32(x)[3]) == x,
{
}

/// Splits a 16-bit number into its high and low byte.
pub fn split_u16_to_u8s(value: u16) -> (bytes: (u8, u8))
    ensures
        bytes.0 == value / 256,
        bytes.1 == value % 256,
        seq![bytes.0, bytes.1] == be16(value),
{
    let high_byte: u8 = (value >> 8) as u8;
    let low_byte: u8 = (value & 0xFF) as u8;
    assert(value >> 8 == value / 256) by (bit_vector);
    assert(value & 0xFF == value % 256) by (bit_vector);
    assert(seq![high_byte, low_byte] =~= be16(value));
    (high_byte, low_byte)
}

/// Joins a high and a low byte into the 16-bit number they spell.
pub fn join_u8s_to_u16(high_byte: u8, low_byte: u8) -> (value: u16)
    ensures
        value == from_be16(high_byte, low_byte),
        value == high_byte as int * 256 + low_byte as int,
{
    let value: u16 = ((high_byte as u16) << 8) | (low_byte as u16);
    assert(((high_byte as u16) << 8) | (low_byte as u16) == (high_byte as u16) * 256 + (
    low_byte as u16)) by (bit_vector);
    value
}

/// Joins four bytes, most significant first, into the 32-bit number they
/// spell.
pub fn join_u8s_to_u32(b0: u8, b1: u8, b2: u8, b3: u8) -> (value: u32)
    ensures
        value == from_be32(b0, b1, b2, b3),
{
    b0 as u32 * 0x100_0000 + b1 as u32 * 0x1_0000 + b2 as u32 * 0x100 + b3 as u32
}

} // verus!
