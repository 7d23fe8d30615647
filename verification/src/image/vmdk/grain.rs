//! Values of grains.

use vstd::arithmetic::power2::{lemma2_to64, lemma_pow2_unfold, pow2};
use vstd::prelude::*;

verus! {

/// Whether a number is a power of two.
pub open spec fn is_power_of_two(value: nat) -> bool
    decreases value,
{
    if value <= 1 {
        value == 1
    } else {
        value % 2 == 0 && is_power_of_two(value / 2)
    }
}

/// The powers of two are those of the natural numbers.
pub proof fn lemma_power_of_two(exponent: nat)
    ensures
        is_power_of_two(pow2(exponent)),
    decreases exponent,
{
    lemma2_to64();
    if exponent > 0 {
        lemma_pow2_unfold(exponent);
        lemma_power_of_two((exponent - 1) as nat);
    }
}

/// A power of two is that of a natural number.
pub proof fn lemma_exponent(value: nat) -> (exponent: nat)
    requires
        is_power_of_two(value),
    ensures
        value == pow2(exponent),
    decreases value,
{
    lemma2_to64();
    if value <= 1 {
        0
    } else {
        let exponent = lemma_exponent(value / 2);
        lemma_pow2_unfold(exponent + 1);
        exponent + 1
    }
}

/// Determines if a number is a power of two.
pub fn test_power_of_two(value: u64) -> (result: bool)
    ensures
        result == is_power_of_two(value as nat),
    decreases value,
{
    if value <= 1 {
        value == 1
    } else {
        value % 2 == 0 && test_power_of_two(value / 2)
    }
}

} // verus!
