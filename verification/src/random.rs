//! The random source behind a split.
//!
//! Fresh coefficients come from `rand`'s `StdRng`, a cryptographically
//! secure generator. A caller either hands one in, seeded as they see fit,
//! or lets the library seed one from the operating system. Verus knows
//! nothing of what a generator returns: the two functions here state only
//! what holds of every draw.

use crate::bignum::value_of;
use num_bigint::{BigUint, RandBigInt};
use rand::rngs::{OsRng, StdRng};
use rand::SeedableRng;
use vstd::prelude::*;

verus! {

/// `rand::rngs::StdRng`, the generator. Verus sees nothing inside a value
/// of it.
#[verifier::external_type_specification]
#[verifier::external_body]
pub struct ExStdRng(rand::rngs::StdRng);

/// `rand::Error`, the failure of a random source. It is only carried from
/// `entropy_source` to the place that reports `RandomnessUnavailable`.
#[verifier::external_type_specification]
#[verifier::external_body]
pub struct ExRandError(rand::Error);

/// `StdRng::from_rng` on `OsRng`: a generator seeded by the operating
/// system, or the error of the system's source. Nothing is promised of
/// which of the two comes back.
#[verifier::external_body]
pub(crate) fn entropy_source() -> (r: Result<StdRng, rand::Error>) {
    StdRng::from_rng(OsRng)
}

/// `RandBigInt::gen_biguint_below`: a number below `bound`, and nothing
/// more is known of it. The method panics on a zero bound, which the
/// precondition leaves out.
#[verifier::external_body]
pub(crate) fn random_below(rng: &mut StdRng, bound: &BigUint) -> (r: BigUint)
    requires
        value_of(*bound) > 0,
    ensures
        value_of(r) < value_of(*bound),
{
    rng.gen_biguint_below(bound)
}

} // verus!
