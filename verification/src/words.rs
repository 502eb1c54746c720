//! Little-endian conversions between 32-bit words and bytes.

use vstd::prelude::*;

verus! {

/// The 32-bit word whose little-endian bytes are `b0, b1, b2, b3`.
pub open spec fn word_of_bytes(b0: u8, b1: u8, b2: u8, b3: u8) -> u32 {
    (b0 + b1 * 0x100 + b2 * 0x1_0000 + b3 * 0x100_0000) as u32
}

/// Byte `i` of the little-endian encoding of `w`.
pub open spec fn byte_of_word(w: u32, i: int) -> u8
    recommends
        0 <= i < 4,
{
    ((w >> (8 * i) as u32) & 0xff) as u8
}

/// Reads a 32-bit word from four bytes, little-endian.
pub fn load_word(b0: u8, b1: u8, b2: u8, b3: u8) -> (w: u32)
    ensures
        w == word_of_bytes(b0, b1, b2, b3),
{
    let w = (b0 as u32) | ((b1 as u32) << 8) | ((b2 as u32) << 16) | ((b3 as u32) << 24);
    proof {
        assert(((b0 as u32) | ((b1 as u32) << 8u32) | ((b2 as u32) << 16u32) | ((b3 as u32)
            << 24u32)) == (b0 + b1 * 0x100 + b2 * 0x1_0000 + b3 * 0x100_0000) as u32)
            by (bit_vector);
    }
    w
}

} // verus!
