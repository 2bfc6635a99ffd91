//! Threshold sharing of a secret over a prime field.
//!
//! The dealer hides the secret as the constant term of a random polynomial
//! of `threshold` coefficients and hands out its values at `1, 2, ..,
//! total_shares`. Any `threshold` of these shares give the secret back by
//! interpolation at zero.

use crate::bignum::{big_from_usize, big_lt, value_of, values_of};
use crate::error::SharingError;
use crate::field;
use crate::interpolation::{
    distinct_modulo, interpolable, interpolate_at_zero, interpolation_at_zero,
    lemma_interpolation_recovers_constant,
};
use crate::number_theory::{has_inverse, is_inverse, is_prime};
use crate::polynomial::{evaluate, generate, is_sharing_polynomial, poly_eval};
use crate::random::entropy_source;
use crate::share::{xs_of, ys_of, Share};
use num_bigint::BigUint;
use rand::rngs::StdRng;
use vstd::arithmetic::div_mod::{lemma_mod_twice, lemma_small_mod};
use vstd::arithmetic::power::pow;
use vstd::prelude::*;
use vstd::slice::slice_subrange;

verus! {

/// What a `SecretSharer` was made with.
pub struct SharingParameters {
    /// The modulus of the field. It is meant to be prime.
    pub modulus: int,
    /// How many shares give the secret back.
    pub threshold: int,
    /// How many shares a split hands out.
    pub total_shares: int,
}

impl SharingParameters {
    /// The modulus is at least 2, and the threshold lies between 1 and the
    /// number of shares.
    pub open spec fn valid(self) -> bool {
        &&& self.modulus >= 2
        &&& 1 <= self.threshold <= self.total_shares
    }
}

/// The `x` of the shares that a split hands out: `1, 2, .., n`.
pub open spec fn dealt_xs(n: int) -> Seq<int> {
    Seq::new(n as nat, |i: int| i + 1)
}

/// The `y` of the shares that a split with the polynomial `c` hands out:
/// the values of `c` at `1, 2, .., n`, reduced modulo `p`.
pub open spec fn dealt_ys(c: Seq<int>, n: int, p: int) -> Seq<int> {
    Seq::new(n as nat, |i: int| poly_eval(c, i + 1) % p)
}

/// `shares` are what a split of `secret` hands out for some choice of the
/// random coefficients.
pub open spec fn is_split_of(shares: Seq<Share>, secret: int, params: SharingParameters) -> bool {
    exists|c: Seq<int>|
        {
            &&& is_sharing_polynomial(c, secret, params.threshold, params.modulus)
            &&& xs_of(shares) == dealt_xs(params.total_shares)
            &&& #[trigger] dealt_ys(c, params.total_shares, params.modulus) == ys_of(shares)
        }
}

/// What reconstruction gives for shares with the given `x` and `y`: the
/// interpolation at zero through the first `threshold` of them.
pub open spec fn reconstruction(xs: Seq<int>, ys: Seq<int>, threshold: int, p: int) -> Result<
    int,
    SharingError,
> {
    if xs.len() < threshold {
        Err(SharingError::InsufficientShares)
    } else if !interpolable(xs.take(threshold), p) {
        Err(SharingError::NonInvertibleDenominator)
    } else {
        Ok(interpolation_at_zero(xs.take(threshold), ys.take(threshold), p))
    }
}

/// The entries of `s` at the positions `picked`, in that order.
pub open spec fn selection(s: Seq<int>, picked: Seq<int>) -> Seq<int> {
    Seq::new(picked.len(), |k: int| s[picked[k]])
}

/// `picked` names positions below `n`, none of them twice.
pub open spec fn picks_distinct(picked: Seq<int>, n: int) -> bool {
    &&& forall|k: int| 0 <= k < picked.len() ==> 0 <= #[trigger] picked[k] < n
    &&& forall|k: int, l: int|
        0 <= k < picked.len() && 0 <= l < picked.len() && k != l ==> #[trigger] picked[k]
            != #[trigger] picked[l]
}

/// Splits secrets into shares and puts shares together again, over the
/// field of remainders modulo a prime.
pub struct SecretSharer {
    prime: BigUint,
    threshold: usize,
    total_shares: usize,
}

impl View for SecretSharer {
    type V = SharingParameters;

    closed spec fn view(&self) -> SharingParameters {
        SharingParameters {
            modulus: value_of(self.prime) as int,
            threshold: self.threshold as int,
            total_shares: self.total_shares as int,
        }
    }
}

impl SecretSharer {
    #[verifier::type_invariant]
    spec fn well_formed(self) -> bool {
        self@.valid()
    }

    /// A sharer for `total_shares` shares, `threshold` of which give the
    /// secret back, over the field of remainders modulo `prime`.
    ///
    /// That `prime` is a prime is the caller's part: it is not tested. A
    /// zero threshold, one above `total_shares`, or a modulus below 2 is
    /// `InvalidParameters`.
    pub fn new(threshold: usize, total_shares: usize, prime: BigUint) -> (r: Result<
        Self,
        SharingError,
    >)
        ensures
            r is Ok <==> 1 <= threshold <= total_shares && value_of(prime) >= 2,
            r matches Ok(sharer) ==> sharer@ == (SharingParameters {
                modulus: value_of(prime) as int,
                threshold: threshold as int,
                total_shares: total_shares as int,
            }),
            r matches Err(e) ==> e == SharingError::InvalidParameters,
    {
        let two = big_from_usize(2);
        if threshold == 0 || threshold > total_shares || big_lt(&prime, &two) {
            return Err(SharingError::InvalidParameters);
        }
        Ok(SecretSharer { prime, threshold, total_shares })
    }

    /// How many shares give the secret back.
    pub fn threshold(&self) -> (t: usize)
        ensures
            t == self@.threshold,
    {
        self.threshold
    }

    /// How many shares a split hands out.
    pub fn total_shares(&self) -> (n: usize)
        ensures
            n == self@.total_shares,
    {
        self.total_shares
    }

    /// The modulus of the field.
    pub fn prime(&self) -> (p: &BigUint)
        ensures
            value_of(*p) == self@.modulus,
    {
        &self.prime
    }

    /// `base` raised to `exp` in the field.
    pub fn mod_pow(&self, base: &BigUint, exp: &BigUint) -> (r: BigUint)
        ensures
            value_of(r) == pow(value_of(*base) as int, value_of(*exp)) % self@.modulus,
    {
        proof {
            use_type_invariant(self);
        }
        field::mod_pow(base, exp, &self.prime)
    }

    /// The inverse of `a` in the field, or `NotInvertible` where it has
    /// none.
    pub fn mod_inverse(&self, a: &BigUint) -> (r: Result<BigUint, SharingError>)
        ensures
            r is Ok <==> has_inverse(value_of(*a) as int, self@.modulus),
            r matches Ok(b) ==> is_inverse(value_of(*a) as int, value_of(b) as int, self@.modulus),
            r matches Err(e) ==> e == SharingError::NotInvertible && !has_inverse(
                value_of(*a) as int,
                self@.modulus,
            ),
    {
        field::mod_inverse(a, &self.prime)
    }

    /// The shares of the polynomial with the given coefficients: its values
    /// at `1, 2, .., total_shares`. No share has `x == 0`, where the
    /// polynomial takes the secret itself.
    pub fn shares_from_coefficients(&self, coefficients: &[BigUint]) -> (shares: Vec<Share>)
        ensures
            shares.len() == self@.total_shares,
            forall|i: int| 0 <= i < shares.len() ==> value_of(#[trigger] shares[i].x) == i + 1,
            xs_of(shares@) == dealt_xs(self@.total_shares),
            ys_of(shares@) == dealt_ys(
                values_of(coefficients@),
                self@.total_shares,
                self@.modulus,
            ),
    {
        proof {
            use_type_invariant(self);
        }
        let ghost c = values_of(coefficients@);
        let ghost p = value_of(self.prime) as int;
        let mut shares: Vec<Share> = Vec::new();
        let mut i: usize = 0;
        while i < self.total_shares
            invariant
                i <= self.total_shares,
                shares.len() == i,
                c == values_of(coefficients@),
                p == value_of(self.prime),
                p > 0,
                forall|k: int| 0 <= k < i ==> value_of(#[trigger] shares[k].x) == k + 1,
                forall|k: int|
                    0 <= k < i ==> value_of(#[trigger] shares[k].y) == poly_eval(c, k + 1) % p,
            decreases self.total_shares - i,
        {
            let x = big_from_usize(i + 1);
            let y = evaluate(coefficients, &x, &self.prime);
            shares.push(Share { x, y });
            i += 1;
        }
        shares
    }

    /// Splits `secret` into `total_shares` shares, with coefficients drawn
    /// from `rng`.
    ///
    /// A secret that does not lie below the modulus is
    /// `InvalidParameters`; every other secret is split.
    pub fn split_secret_with(&self, secret: &BigUint, rng: &mut StdRng) -> (r: Result<
        Vec<Share>,
        SharingError,
    >)
        ensures
            r is Ok <==> value_of(*secret) < self@.modulus,
            r matches Ok(shares) ==> shares.len() == self@.total_shares,
            r matches Ok(shares) ==> forall|i: int|
                0 <= i < shares.len() ==> value_of(#[trigger] shares[i].x) == i + 1,
            r matches Ok(shares) ==> is_split_of(shares@, value_of(*secret) as int, self@),
            r matches Err(e) ==> e == SharingError::InvalidParameters,
    {
        proof {
            use_type_invariant(self);
        }
        match generate(secret, self.threshold, &self.prime, rng) {
            Err(e) => Err(e),
            Ok(coefficients) => {
                let shares = self.shares_from_coefficients(coefficients.as_slice());
                Ok(shares)
            },
        }
    }

    /// Splits `secret` into `total_shares` shares, with coefficients from a
    /// generator that the operating system seeds afresh.
    ///
    /// A secret that does not lie below the modulus is
    /// `InvalidParameters`. For every other secret the result is the
    /// shares, or `RandomnessUnavailable` where the system's source fails.
    pub fn split_secret(&self, secret: &BigUint) -> (r: Result<Vec<Share>, SharingError>)
        ensures
            r matches Ok(shares) ==> shares.len() == self@.total_shares,
            r matches Ok(shares) ==> forall|i: int|
                0 <= i < shares.len() ==> value_of(#[trigger] shares[i].x) == i + 1,
            r matches Ok(shares) ==> is_split_of(shares@, value_of(*secret) as int, self@),
            r matches Err(e) ==> e == (if value_of(*secret) < self@.modulus {
                SharingError::RandomnessUnavailable
            } else {
                SharingError::InvalidParameters
            }),
    {
        if !big_lt(secret, &self.prime) {
            return Err(SharingError::InvalidParameters);
        }
        match entropy_source() {
            Err(_) => Err(SharingError::RandomnessUnavailable),
            Ok(mut rng) => self.split_secret_with(secret, &mut rng),
        }
    }

    /// The secret that `shares` hide: the interpolation at zero through
    /// the first `threshold` of them. Which shares make the quorum is the
    /// caller's choice.
    ///
    /// Fewer shares than the threshold are `InsufficientShares`. A quorum
    /// that cannot be interpolated, as with two shares of the same `x`, is
    /// `NonInvertibleDenominator`.
    pub fn reconstruct_secret(&self, shares: &[Share]) -> (r: Result<BigUint, SharingError>)
        ensures
            r matches Ok(secret) ==> reconstruction(
                xs_of(shares@),
                ys_of(shares@),
                self@.threshold,
                self@.modulus,
            ) == Ok::<int, SharingError>(value_of(secret) as int),
            r matches Err(e) ==> reconstruction(
                xs_of(shares@),
                ys_of(shares@),
                self@.threshold,
                self@.modulus,
            ) == Err::<int, SharingError>(e),
    {
        proof {
            use_type_invariant(self);
        }
        if shares.len() < self.threshold {
            return Err(SharingError::InsufficientShares);
        }
        let quorum = slice_subrange(shares, 0, self.threshold);
        proof {
            assert(xs_of(quorum@) =~= xs_of(shares@).take(self.threshold as int));
            assert(ys_of(quorum@) =~= ys_of(shares@).take(self.threshold as int));
        }
        interpolate_at_zero(quorum, &self.prime)
    }
}

/// Among `1, 2, .., n` no two numbers leave the same remainder modulo `p`,
/// as long as `n` is at most `p`; and so for any choice among them.
proof fn lemma_dealt_xs_distinct(n: int, p: int, picked: Seq<int>)
    requires
        0 <= n <= p,
        picks_distinct(picked, n),
    ensures
        distinct_modulo(selection(dealt_xs(n), picked), p),
{
    let xs = selection(dealt_xs(n), picked);
    assert forall|i: int, j: int|
        0 <= i < xs.len() && 0 <= j < xs.len() && i != j implies (#[trigger] xs[i]
        - #[trigger] xs[j]) % p != 0 by {
        let d = picked[i] - picked[j];
        if d > 0 {
            lemma_small_mod(d as nat, p as nat);
        } else {
            vstd::arithmetic::div_mod::lemma_mod_add_multiples_vanish(d, p);
            lemma_small_mod((p + d) as nat, p as nat);
        }
    }
}

/// Round trip: any `threshold` shares of a split give the secret back.
///
/// Let `p` be prime and `c` the polynomial of a split, with `threshold`
/// coefficients, into `n` shares, where `threshold <= n <= p`. Pick at
/// least `threshold` of the shares, none of them twice, in any order.
/// Then reconstruction from the picked shares succeeds and gives `c[0]`
/// modulo `p`; where `c` shares a secret below `p`, that is the secret.
pub proof fn lemma_reconstruction_recovers_secret(c: Seq<int>, n: int, p: int, picked: Seq<int>)
    requires
        is_prime(p),
        1 <= c.len() <= n <= p,
        picked.len() >= c.len(),
        picks_distinct(picked, n),
    ensures
        reconstruction(
            selection(dealt_xs(n), picked),
            selection(dealt_ys(c, n, p), picked),
            c.len() as int,
            p,
        ) == Ok::<int, SharingError>(c[0] % p),
        0 <= c[0] < p ==> c[0] % p == c[0],
{
    let t = c.len() as int;
    let xs = selection(dealt_xs(n), picked);
    let ys = selection(dealt_ys(c, n, p), picked);
    let quorum = picked.take(t);
    assert(xs.take(t) =~= selection(dealt_xs(n), quorum));
    lemma_dealt_xs_distinct(n, p, quorum);
    assert forall|i: int| 0 <= i < t implies #[trigger] ys.take(t)[i] % p == poly_eval(
        c,
        xs.take(t)[i],
    ) % p by {
        lemma_mod_twice(poly_eval(c, picked[i] + 1), p);
    }
    lemma_interpolation_recovers_constant(c, xs.take(t), ys.take(t), p);
    if 0 <= c[0] < p {
        lemma_small_mod(c[0] as nat, p as nat);
    }
}

/// Any quorum gives the secret back.
///
/// Let the modulus be prime and `shares` the shares of a split of `secret`
/// into no more shares than the modulus. Pick at least `threshold` of
/// them, none twice, in any order. Then reconstruction from the picked
/// shares gives the secret.
pub proof fn lemma_any_quorum_recovers_secret(
    shares: Seq<Share>,
    secret: int,
    params: SharingParameters,
    picked: Seq<int>,
)
    requires
        params.valid(),
        is_prime(params.modulus),
        params.total_shares <= params.modulus,
        is_split_of(shares, secret, params),
        picked.len() >= params.threshold,
        picks_distinct(picked, params.total_shares),
    ensures
        reconstruction(
            selection(xs_of(shares), picked),
            selection(ys_of(shares), picked),
            params.threshold,
            params.modulus,
        ) == Ok::<int, SharingError>(secret),
{
    let c = choose|c: Seq<int>|
        {
            &&& is_sharing_polynomial(c, secret, params.threshold, params.modulus)
            &&& xs_of(shares) == dealt_xs(params.total_shares)
            &&& #[trigger] dealt_ys(c, params.total_shares, params.modulus) == ys_of(shares)
        };
    lemma_reconstruction_recovers_secret(c, params.total_shares, params.modulus, picked);
}

/// The threshold is sharp: of the shares of a split, the first
/// `threshold - 1` are `InsufficientShares`, and the first `threshold`
/// give the secret.
pub proof fn lemma_threshold_boundary(shares: Seq<Share>, secret: int, params: SharingParameters)
    requires
        params.valid(),
        is_prime(params.modulus),
        params.total_shares <= params.modulus,
        is_split_of(shares, secret, params),
    ensures
        reconstruction(
            xs_of(shares.take(params.threshold - 1)),
            ys_of(shares.take(params.threshold - 1)),
            params.threshold,
            params.modulus,
        ) == Err::<int, SharingError>(SharingError::InsufficientShares),
        reconstruction(
            xs_of(shares.take(params.threshold)),
            ys_of(shares.take(params.threshold)),
            params.threshold,
            params.modulus,
        ) == Ok::<int, SharingError>(secret),
{
    let t = params.threshold;
    let picked = Seq::new(t as nat, |k: int| k);
    assert(xs_of(shares).len() == params.total_shares);
    lemma_any_quorum_recovers_secret(shares, secret, params, picked);
    assert(xs_of(shares.take(t)) =~= selection(xs_of(shares), picked));
    assert(ys_of(shares.take(t)) =~= selection(ys_of(shares), picked));
}

} // verus!
