//! Facts about bit masks and shifts, shared by the bit-level coders.
use vstd::prelude::*;

verus! {

/// Masks of the low bits bound their results, and a shift by zero is the identity.
pub proof fn lemma_low_masks(x: u32)
    ensures
        x & 1 <= 1,
        x & 7 < 8,
        x & 127 < 128,
        x >> 0u32 == x,
{
    assert(x & 1 <= 1 && x & 7 < 8 && x & 127 < 128 && x >> 0u32 == x) by (bit_vector);
}

/// A right shift of a value that is not negative is not negative and not larger.
pub proof fn lemma_i64_shr_bounds(x: i64, s: u32)
    requires
        x >= 0,
        s < 64,
    ensures
        x >> s <= x,
        x >> s >= 0,
{
    assert(x >> s <= x && x >> s >= 0) by (bit_vector)
        requires
            x >= 0,
            s < 64,
    ;
}

/// Shifting a 16-bit buffer up by one byte keeps its low byte, now in the high half.
pub proof fn lemma_shift_byte_up(b: u32)
    requires
        b < 0x10000,
    ensures
        (b << 8) & 0xffff == (b % 256) * 256,
{
    assert((b << 8) & 0xffff == (b % 256) * 256) by (bit_vector)
        requires
            b < 0x10000,
    ;
}

} // verus!
