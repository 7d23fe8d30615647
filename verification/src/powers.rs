//! Powers of two.

use vstd::arithmetic::power2::{lemma2_to64, lemma_pow2_strictly_increases, pow2};
use vstd::bits::{lemma_u64_pow2_no_overflow, lemma_u64_shl_is_mul};
use vstd::prelude::*;

verus! {

/// A power of two lies below a higher one.
pub proof fn lemma_power_below(bits: nat, limit: nat)
    requires
        bits < limit,
    ensures
        0 < pow2(bits) < pow2(limit),
{
    lemma_pow2_strictly_increases(bits, limit);
    vstd::arithmetic::power2::lemma_pow2_pos(bits);
}

/// Calculates a power of two.
pub fn power_of_two(bits: u32) -> (value: u64)
    requires
        bits < 64,
    ensures
        value == pow2(bits as nat),
        0 < value,
{
    proof {
        lemma2_to64();
        lemma_u64_pow2_no_overflow(bits as nat);
        vstd::arithmetic::power2::lemma_pow2_pos(bits as nat);
        lemma_u64_shl_is_mul(1, bits as u64);
    }
    1u64 << (bits as u64)
}

} // verus!
