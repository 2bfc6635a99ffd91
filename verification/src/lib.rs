//! Threshold secret sharing, verified.
//!
//! A secret is split into `n` shares so that any `t` of them give it back
//! and fewer reveal nothing: the shares are points of a random polynomial
//! over a prime field, with the secret as its constant term. In the
//! verifiable variant the dealer also publishes commitments, against which
//! every share can be tested.
//!
//! * [`field`]: products, sums, powers and inverses modulo a number.
//! * [`polynomial`]: drawing and evaluating polynomials.
//! * [`interpolation`]: Lagrange interpolation at zero, and the proof that
//!   it recovers the constant term.
//! * [`shamir_sharing`]: splitting and reconstruction.
//! * [`verifiable_shamir`]: splitting with commitments, verification of
//!   shares, reconstruction.
//! * [`number_theory`]: the facts about primes and inverses that the proofs
//!   rest on.
//! * [`bignum`], [`random`]: what is taken on trust from `num_bigint`,
//!   `num_traits` and `rand`.

pub mod bignum;
pub mod error;
pub mod field;
pub mod interpolation;
pub mod number_theory;
pub mod polynomial;
pub mod random;
pub mod shamir_sharing;
pub mod share;
pub mod verifiable_shamir;
