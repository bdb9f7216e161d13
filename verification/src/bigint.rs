//! Trusted bridge to num's arbitrary-precision unsigned integers.
//!
//! Each wrapper converts limb vectors to `num::BigUint`, makes exactly one
//! arithmetic call, and converts the result back.  `BigUint::from_slice` and
//! `BigUint::to_u32_digits` read and write little-endian base-2^32 digits;
//! `to_u32_digits` returns the normal form with no leading zero digit.

use vstd::prelude::*;

verus! {

use vstd::arithmetic::power::pow;
use crate::limbs::limbs_val;
use crate::limbs::limbs_minimal;

/// `(b ^ e) mod m` on naturals.
pub open spec fn pow_mod(b: nat, e: nat, m: nat) -> nat
    recommends
        m > 0,
{
    (pow(b as int, e) % (m as int)) as nat
}

/// Relies on num's `BigUint` addition.
#[verifier::external_body]
pub(crate) fn big_add(a: &Vec<u32>, b: &Vec<u32>) -> (r: Vec<u32>)
    ensures
        limbs_val(r@) == limbs_val(a@) + limbs_val(b@),
        limbs_minimal(r@),
{
    let x = num::BigUint::from_slice(a) + num::BigUint::from_slice(b);
    x.to_u32_digits()
}

/// Relies on num's `BigUint` subtraction, which requires that the
/// difference is not negative.
#[verifier::external_body]
pub(crate) fn big_sub(a: &Vec<u32>, b: &Vec<u32>) -> (r: Vec<u32>)
    requires
        limbs_val(b@) <= limbs_val(a@),
    ensures
        limbs_val(r@) == limbs_val(a@) - limbs_val(b@),
        limbs_minimal(r@),
{
    let x = num::BigUint::from_slice(a) - num::BigUint::from_slice(b);
    x.to_u32_digits()
}

/// Relies on num's `BigUint` multiplication.
#[verifier::external_body]
pub(crate) fn big_mul(a: &Vec<u32>, b: &Vec<u32>) -> (r: Vec<u32>)
    ensures
        limbs_val(r@) == limbs_val(a@) * limbs_val(b@),
        limbs_minimal(r@),
{
    let x = num::BigUint::from_slice(a) * num::BigUint::from_slice(b);
    x.to_u32_digits()
}

/// Relies on num's `BigUint` remainder, which requires a non-zero divisor.
#[verifier::external_body]
pub(crate) fn big_rem(a: &Vec<u32>, m: &Vec<u32>) -> (r: Vec<u32>)
    requires
        limbs_val(m@) > 0,
    ensures
        limbs_val(r@) == limbs_val(a@) % limbs_val(m@),
        limbs_minimal(r@),
{
    let x = num::BigUint::from_slice(a) % num::BigUint::from_slice(m);
    x.to_u32_digits()
}

/// Relies on num's `BigUint::modpow`, documented as `(self ^ exponent) %
/// modulus` with a panic only on a zero modulus.
#[verifier::external_body]
pub(crate) fn big_modpow(b: &Vec<u32>, e: &Vec<u32>, m: &Vec<u32>) -> (r: Vec<u32>)
    requires
        limbs_val(m@) > 0,
    ensures
        limbs_val(r@) == pow_mod(limbs_val(b@), limbs_val(e@), limbs_val(m@)),
        limbs_minimal(r@),
{
    let x = num::BigUint::from_slice(b).modpow(&num::BigUint::from_slice(e), &num::BigUint::from_slice(m));
    x.to_u32_digits()
}

} // verus!
