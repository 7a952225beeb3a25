//! Trusted surface over `num_bigint::BigUint`.
//!
//! Every arbitrary-precision value in the crate is a `BigUint`; to the
//! verifier such a value is opaque, so `nat_of` names the natural number it
//! holds and each wrapper below states, over `nat_of`, what one operation of
//! the outside crate does. All verified arithmetic in this crate goes
//! through these wrappers.
use vstd::prelude::*;
use num_bigint::BigUint;
use num_integer::Integer;
use num_traits::{One, Zero};
use crate::arith::gcd_nat;

verus! {

#[verifier::external_type_specification]
#[verifier::external_body]
pub struct ExBigUint(BigUint);

/// The natural number that a `BigUint` holds.
pub uninterp spec fn nat_of(b: BigUint) -> nat;

/// Relies on `num_traits::One::one`: the multiplicative identity.
#[verifier::external_body]
pub(crate) fn big_one() -> (r: BigUint)
    ensures
        nat_of(r) == 1,
{
    BigUint::one()
}

/// Relies on `num_traits::Zero::is_zero`: tests for zero.
#[verifier::external_body]
pub(crate) fn big_is_zero(a: &BigUint) -> (r: bool)
    ensures
        r <==> nat_of(*a) == 0,
{
    a.is_zero()
}

/// Relies on `From<u64> for BigUint`: embeds a machine word.
#[verifier::external_body]
pub(crate) fn big_from_u64(v: u64) -> (r: BigUint)
    ensures
        nat_of(r) == v as nat,
{
    BigUint::from(v)
}

/// Relies on `Clone::clone for BigUint`: copies the value.
#[verifier::external_body]
pub(crate) fn big_clone(a: &BigUint) -> (r: BigUint)
    ensures
        nat_of(r) == nat_of(*a),
{
    a.clone()
}

/// Relies on `Add for &BigUint`: exact unbounded addition.
#[verifier::external_body]
pub(crate) fn big_add(a: &BigUint, b: &BigUint) -> (r: BigUint)
    ensures
        nat_of(r) == nat_of(*a) + nat_of(*b),
{
    a + b
}

/// Relies on `Sub for &BigUint`: exact subtraction; panics on underflow,
/// which the precondition rules out.
#[verifier::external_body]
pub(crate) fn big_sub(a: &BigUint, b: &BigUint) -> (r: BigUint)
    requires
        nat_of(*b) <= nat_of(*a),
    ensures
        nat_of(r) == nat_of(*a) - nat_of(*b),
{
    a - b
}

/// Relies on `Mul for &BigUint`: exact unbounded multiplication.
#[verifier::external_body]
pub(crate) fn big_mul(a: &BigUint, b: &BigUint) -> (r: BigUint)
    ensures
        nat_of(r) == nat_of(*a) * nat_of(*b),
{
    a * b
}

/// Relies on `Div for &BigUint`: floor division; panics on a zero divisor,
/// which the precondition rules out.
#[verifier::external_body]
pub(crate) fn big_div(a: &BigUint, b: &BigUint) -> (r: BigUint)
    requires
        nat_of(*b) >= 1,
    ensures
        nat_of(r) == nat_of(*a) / nat_of(*b),
{
    a / b
}

/// Relies on `Rem for &BigUint`: the division remainder; panics on a zero
/// divisor, which the precondition rules out.
#[verifier::external_body]
pub(crate) fn big_mod(a: &BigUint, b: &BigUint) -> (r: BigUint)
    requires
        nat_of(*b) >= 1,
    ensures
        nat_of(r) == nat_of(*a) % nat_of(*b),
{
    a % b
}

/// Relies on `Shr<u32> for &BigUint`: one right shift halves the value,
/// rounding down.
#[verifier::external_body]
pub(crate) fn big_half(a: &BigUint) -> (r: BigUint)
    ensures
        nat_of(r) == nat_of(*a) / 2,
{
    a >> 1u32
}

/// Relies on `PartialEq for BigUint`: equality of the held values.
#[verifier::external_body]
pub(crate) fn big_eq(a: &BigUint, b: &BigUint) -> (r: bool)
    ensures
        r <==> nat_of(*a) == nat_of(*b),
{
    a == b
}

/// Relies on `PartialOrd::lt for BigUint`: strict order of the held values.
#[verifier::external_body]
pub(crate) fn big_lt(a: &BigUint, b: &BigUint) -> (r: bool)
    ensures
        r <==> nat_of(*a) < nat_of(*b),
{
    a < b
}

/// Relies on `PartialOrd::le for BigUint`: order of the held values.
#[verifier::external_body]
pub(crate) fn big_le(a: &BigUint, b: &BigUint) -> (r: bool)
    ensures
        r <==> nat_of(*a) <= nat_of(*b),
{
    a <= b
}

/// Relies on `num_integer::Integer::is_even for BigUint`: divisibility by 2.
#[verifier::external_body]
pub(crate) fn big_is_even(a: &BigUint) -> (r: bool)
    ensures
        r <==> nat_of(*a) % 2 == 0,
{
    a.is_even()
}

/// Relies on `num_integer::Integer::gcd for BigUint` (Stein's algorithm):
/// returns the greatest common divisor, which Euclid's recurrence
/// `gcd_nat` characterizes.
#[verifier::external_body]
pub(crate) fn big_gcd(a: &BigUint, b: &BigUint) -> (r: BigUint)
    ensures
        nat_of(r) == gcd_nat(nat_of(*a), nat_of(*b)),
{
    a.gcd(b)
}

} // verus!
