//! The deterministic scatter that the synthetic market generator adds to
//! each implied volatility.

use vstd::prelude::*;

verus! {

/// The deterministic scatter code of point `i` in a synthetic slice whose
/// seed is `seed`: `((seed·31 + i)·7919 mod 2⁶⁴) mod 1000`, every product and
/// sum wrapping at 2⁶⁴.
pub open spec fn scatter_code_spec(seed: u64, i: u64) -> nat {
    let a = (seed as nat * 31) % 0x1_0000_0000_0000_0000;
    let b = (a + i as nat) % 0x1_0000_0000_0000_0000;
    ((b * 7919) % 0x1_0000_0000_0000_0000) % 1000
}

/// A pseudo-random code in `0..1000` that perturbs the `i`-th point of a
/// synthetic smile; the same seed and index always give the same code.
pub fn scatter_code(seed: u64, i: u64) -> (h: u64)
    ensures
        h == scatter_code_spec(seed, i),
        h < 1000,
{
    let a = seed.wrapping_mul(31);
    let b = a.wrapping_add(i);
    let c = b.wrapping_mul(7919);
    proof {
        assert(a as nat == (seed as nat * 31) % 0x1_0000_0000_0000_0000);
        assert(b as nat == (a as nat + i as nat) % 0x1_0000_0000_0000_0000);
    }
    c % 1000
}

} // verus!
