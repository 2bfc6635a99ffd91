//! A share: one point of the dealer's polynomial.

use crate::bignum::value_of;
use num_bigint::BigUint;
use vstd::prelude::*;

verus! {

/// One participant's part of a secret: the point `(x, y)` of the
/// polynomial that hides the secret at zero.
#[derive(Debug, Clone)]
pub struct Share {
    /// The participant's index. A dealt share never has `x == 0`.
    pub x: BigUint,
    /// The polynomial's value at `x`, reduced into the field.
    pub y: BigUint,
}

/// The `x` values of a sequence of shares.
pub open spec fn xs_of(shares: Seq<Share>) -> Seq<int> {
    Seq::new(shares.len(), |i: int| value_of(shares[i].x) as int)
}

/// The `y` values of a sequence of shares.
pub open spec fn ys_of(shares: Seq<Share>) -> Seq<int> {
    Seq::new(shares.len(), |i: int| value_of(shares[i].y) as int)
}

} // verus!
