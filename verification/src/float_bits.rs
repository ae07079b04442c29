//! Bit-level helpers on `f64` bit patterns, given as `u64`.

use vstd::prelude::*;

verus! {

/// The bit pattern of an `f64` with its low 32-bit word cleared, the
/// truncation that `erfc` applies to `|x|` before splitting `x²` into an
/// exactly representable part and a small correction.
pub open spec fn high_word_spec(bits: u64) -> u64 {
    bits & 0xFFFF_FFFF_0000_0000
}

/// Clears the low 32 bits of an `f64` bit pattern.
pub fn clear_low_word(bits: u64) -> (r: u64)
    ensures
        r == high_word_spec(bits),
        r == bits - bits % 0x1_0000_0000,
{
    let r = bits & 0xFFFF_FFFF_0000_0000;
    assert(bits & 0xFFFF_FFFF_0000_0000 == bits - bits % 0x1_0000_0000) by (bit_vector);
    r
}

} // verus!
