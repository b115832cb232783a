//! Non-negative fixed-point decimals: a `u64` count of units, `ONE` units
//! making the value one.

use vstd::prelude::*;

verus! {

/// Units in one whole: nine decimal places.
pub const ONE: u64 = 1_000_000_000;

/// Units of `100.0`, the total of a percentized vector.
pub const HUNDRED: u64 = 100_000_000_000;

/// The product of two fixed-point values, rounded down to a unit and
/// saturating at `u64::MAX` units.
pub open spec fn mul_spec(a: u64, b: u64) -> u64 {
    let p = (a as nat) * (b as nat) / (ONE as nat);
    if p > u64::MAX as nat {
        u64::MAX
    } else {
        p as u64
    }
}

/// Multiplies two fixed-point values.
pub fn mul_fixed(a: u64, b: u64) -> (r: u64)
    ensures
        r == mul_spec(a, b),
{
    proof {
        lemma_u64_product_fits(a, b);
    }
    let p: u128 = (a as u128) * (b as u128);
    let q: u128 = p / (ONE as u128);
    if q > u64::MAX as u128 {
        u64::MAX
    } else {
        q as u64
    }
}

proof fn lemma_u64_product_fits(a: u64, b: u64)
    ensures
        (a as nat) * (b as nat) <= u128::MAX as nat,
{
    assert((a as nat) * (b as nat) <= (u64::MAX as nat) * (u64::MAX as nat)) by (nonlinear_arith)
        requires a <= u64::MAX, b <= u64::MAX;
}

/// One times a value is that value.
pub proof fn lemma_one_mul(a: u64)
    ensures
        mul_spec(ONE, a) == a,
{
    assert((ONE as nat) * (a as nat) / (ONE as nat) == a as nat) by (nonlinear_arith);
}

/// Multiplying by one changes nothing.
pub proof fn lemma_mul_one(a: u64)
    ensures
        mul_spec(a, ONE) == a,
{
    assert((a as nat) * (ONE as nat) / (ONE as nat) == a as nat) by (nonlinear_arith);
}

} // verus!
