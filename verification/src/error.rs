//! The failures that the library reports.

use vstd::prelude::*;

verus! {

/// Why an operation did not produce a result.
#[derive(Debug, Clone, Copy, PartialEq, Eq, Structural)]
pub enum SharingError {
    /// The threshold is zero or above the number of shares, a modulus is
    /// below 2, or a secret does not lie below the field bound.
    InvalidParameters,
    /// Fewer shares than the threshold were supplied.
    InsufficientShares,
    /// A denominator of the interpolation has no inverse in the field, as
    /// happens when two shares have the same `x`.
    NonInvertibleDenominator,
    /// The number has no inverse for the modulus.
    NotInvertible,
    /// The share at this position does not match the commitments.
    ShareVerificationFailed(usize),
    /// The operating system's random source gave nothing.
    RandomnessUnavailable,
}

} // verus!
