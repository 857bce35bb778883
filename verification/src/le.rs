//! Little-endian encoding of the scalar sample values.
//!
//! Floating-point samples are carried as their bit patterns, so that every
//! payload, NaNs included, survives unchanged.

use vstd::prelude::*;

verus! {

/// The 16-bit pattern whose little-endian bytes are `b0`, `b1`.
pub open spec fn u16_from_le(b0: u8, b1: u8) -> int {
    b0 as int + 0x100 * (b1 as int)
}

/// The 32-bit pattern whose little-endian bytes are `b0` to `b3`.
pub open spec fn u32_from_le(b0: u8, b1: u8, b2: u8, b3: u8) -> int {
    b0 as int + 0x100 * (b1 as int) + 0x1_0000 * (b2 as int) + 0x100_0000 * (b3 as int)
}

/// Byte `j` of the little-endian encoding of `bits`.
pub open spec fn le_byte(bits: int, j: int) -> u8 {
    if j == 0 {
        (bits % 0x100) as u8
    } else if j == 1 {
        ((bits / 0x100) % 0x100) as u8
    } else if j == 2 {
        ((bits / 0x1_0000) % 0x100) as u8
    } else {
        ((bits / 0x100_0000) % 0x100) as u8
    }
}

/// Reads a 16-bit pattern from its two little-endian bytes.
pub fn u16_from_le_bytes(b0: u8, b1: u8) -> (bits: u16)
    ensures
        bits as int == u16_from_le(b0, b1),
{
    (b0 as u16) + 0x100 * (b1 as u16)
}

/// The two little-endian bytes of a 16-bit pattern.
pub fn u16_to_le_bytes(bits: u16) -> (bytes: [u8; 2])
    ensures
        forall|j: int| 0 <= j < 2 ==> bytes@[j] == le_byte(bits as int, j),
{
    [(bits % 0x100) as u8, ((bits / 0x100) % 0x100) as u8]
}

/// Reads a 32-bit pattern from its four little-endian bytes.
pub fn u32_from_le_bytes(b0: u8, b1: u8, b2: u8, b3: u8) -> (bits: u32)
    ensures
        bits as int == u32_from_le(b0, b1, b2, b3),
{
    (b0 as u32) + 0x100 * (b1 as u32) + 0x1_0000 * (b2 as u32) + 0x100_0000 * (b3 as u32)
}

/// The four little-endian bytes of a 32-bit pattern.
pub fn u32_to_le_bytes(bits: u32) -> (bytes: [u8; 4])
    ensures
        forall|j: int| 0 <= j < 4 ==> bytes@[j] == le_byte(bits as int, j),
{
    [
        (bits % 0x100) as u8,
        ((bits / 0x100) % 0x100) as u8,
        ((bits / 0x1_0000) % 0x100) as u8,
        ((bits / 0x100_0000) % 0x100) as u8,
    ]
}

/// Decoding the encoding of a 16-bit pattern gives the pattern back.
pub proof fn lemma_u16_le_roundtrip(bits: int)
    requires
        0 <= bits < 0x1_0000,
    ensures
        u16_from_le(le_byte(bits, 0), le_byte(bits, 1)) == bits,
{
}

/// Decoding the encoding of a 32-bit pattern gives the pattern back.
pub proof fn lemma_u32_le_roundtrip(bits: int)
    requires
        0 <= bits < 0x1_0000_0000,
    ensures
        u32_from_le(le_byte(bits, 0), le_byte(bits, 1), le_byte(bits, 2), le_byte(bits, 3))
            == bits,
{
}

/// Encoding the pattern that two bytes decode to gives the two bytes back.
pub proof fn lemma_u16_le_bytes(b0: u8, b1: u8)
    ensures
        0 <= u16_from_le(b0, b1) < 0x1_0000,
        le_byte(u16_from_le(b0, b1), 0) == b0,
        le_byte(u16_from_le(b0, b1), 1) == b1,
{
}

/// Encoding the pattern that four bytes decode to gives the four bytes back.
pub proof fn lemma_u32_le_bytes(b0: u8, b1: u8, b2: u8, b3: u8)
    ensures
        0 <= u32_from_le(b0, b1, b2, b3) < 0x1_0000_0000,
        le_byte(u32_from_le(b0, b1, b2, b3), 0) == b0,
        le_byte(u32_from_le(b0, b1, b2, b3), 1) == b1,
        le_byte(u32_from_le(b0, b1, b2, b3), 2) == b2,
        le_byte(u32_from_le(b0, b1, b2, b3), 3) == b3,
{
}

} // verus!
