//! Arbitrary-precision naturals.
//!
//! The numbers this library computes with are `num_bigint::BigUint` values.
//! Verus cannot look inside one, so this module is the boundary: it names the
//! natural number that a `BigUint` stands for and states, without proof, what
//! each operation of `num_bigint` and `num_traits` used by the library does
//! to that number. Everything else in the crate is proved from these
//! statements.

use num_bigint::BigUint;
use num_traits::{One, Zero};
use vstd::arithmetic::power::pow;
use vstd::prelude::*;

verus! {

/// `num_bigint::BigUint`, an unsigned integer without an upper limit. Verus
/// sees nothing inside a value of it.
#[verifier::external_type_specification]
#[verifier::external_body]
pub struct ExBigUint(num_bigint::BigUint);

/// The natural number that a `BigUint` stands for.
pub uninterp spec fn value_of(n: BigUint) -> nat;

/// The numbers that the entries of a sequence of `BigUint`s stand for.
pub open spec fn values_of(s: Seq<BigUint>) -> Seq<int> {
    Seq::new(s.len(), |i: int| value_of(s[i]) as int)
}

/// `BigUint::modpow`: `base` raised to `exponent`, reduced modulo `modulus`.
/// The method panics on a zero modulus, which the precondition leaves out.
pub assume_specification[ BigUint::modpow ](
    base: &BigUint,
    exponent: &BigUint,
    modulus: &BigUint,
) -> (r: BigUint)
    requires
        value_of(*modulus) != 0,
    ensures
        value_of(r) == pow(value_of(*base) as int, value_of(*exponent)) % (value_of(
            *modulus,
        ) as int),
;

/// `Clone::clone` of `BigUint`: the copy stands for the same number.
pub assume_specification[ <BigUint as Clone>::clone ](a: &BigUint) -> (r: BigUint)
    ensures
        value_of(r) == value_of(*a),
;

/// `Zero::zero` of `BigUint`: the number 0.
#[verifier::external_body]
pub(crate) fn big_zero() -> (r: BigUint)
    ensures
        value_of(r) == 0,
{
    BigUint::zero()
}

/// `One::one` of `BigUint`: the number 1.
#[verifier::external_body]
pub(crate) fn big_one() -> (r: BigUint)
    ensures
        value_of(r) == 1,
{
    BigUint::one()
}

/// `Zero::is_zero` of `BigUint`: whether the number is 0.
#[verifier::external_body]
pub(crate) fn big_is_zero(a: &BigUint) -> (r: bool)
    ensures
        r == (value_of(*a) == 0),
{
    a.is_zero()
}

/// `BigUint::from` on a `usize`: the same number.
#[verifier::external_body]
pub(crate) fn big_from_usize(v: usize) -> (r: BigUint)
    ensures
        value_of(r) == v,
{
    BigUint::from(v)
}

/// `&a + &b` of `BigUint`: the sum; it has no upper limit.
#[verifier::external_body]
pub(crate) fn big_add(a: &BigUint, b: &BigUint) -> (r: BigUint)
    ensures
        value_of(r) == value_of(*a) + value_of(*b),
{
    a + b
}

/// `&a - &b` of `BigUint`: the difference. The operator panics where `b` is
/// the larger, which the precondition leaves out.
#[verifier::external_body]
pub(crate) fn big_sub(a: &BigUint, b: &BigUint) -> (r: BigUint)
    requires
        value_of(*a) >= value_of(*b),
    ensures
        value_of(r) == value_of(*a) - value_of(*b),
{
    a - b
}

/// `&a * &b` of `BigUint`: the product; it has no upper limit.
#[verifier::external_body]
pub(crate) fn big_mul(a: &BigUint, b: &BigUint) -> (r: BigUint)
    ensures
        value_of(r) == value_of(*a) * value_of(*b),
{
    a * b
}

/// `&a / &b` of `BigUint`: the quotient, rounded down. The operator panics
/// on a zero divisor, which the precondition leaves out.
#[verifier::external_body]
pub(crate) fn big_div(a: &BigUint, b: &BigUint) -> (r: BigUint)
    requires
        value_of(*b) != 0,
    ensures
        value_of(r) == value_of(*a) / value_of(*b),
{
    a / b
}

/// `&a % &b` of `BigUint`: the remainder. The operator panics on a zero
/// divisor, which the precondition leaves out.
#[verifier::external_body]
pub(crate) fn big_rem(a: &BigUint, b: &BigUint) -> (r: BigUint)
    requires
        value_of(*b) != 0,
    ensures
        value_of(r) == value_of(*a) % value_of(*b),
{
    a % b
}

/// `a < b` of `BigUint`: the order of the numbers.
#[verifier::external_body]
pub(crate) fn big_lt(a: &BigUint, b: &BigUint) -> (r: bool)
    ensures
        r == (value_of(*a) < value_of(*b)),
{
    a < b
}

/// `a == b` of `BigUint`: whether the numbers are the same.
#[verifier::external_body]
pub(crate) fn big_eq(a: &BigUint, b: &BigUint) -> (r: bool)
    ensures
        r == (value_of(*a) == value_of(*b)),
{
    a == b
}

} // verus!
