//! Verifiable secret sharing after Feldman.
//!
//! Beside the shares the dealer publishes one commitment to each
//! coefficient of the polynomial: the generator `g` raised to it, modulo
//! `p`. Shares live in the field of remainders modulo `q`, the order of
//! `g`; commitments live in the group of remainders modulo `p`. Whoever
//! holds a share can test it against the commitments without learning
//! anything about the polynomial.

use crate::bignum::{big_eq, big_from_usize, big_lt, big_one, big_rem, value_of, values_of};
use crate::error::SharingError;
use crate::field::{self, mod_mul};
use crate::interpolation::interpolate_at_zero;
use crate::number_theory::{
    has_inverse, inverse_of, is_inverse, is_prime, lemma_add_congruent, lemma_mul_congruent,
    lemma_prime_inverse_exists,
};
use crate::polynomial::{evaluate, generate, is_sharing_polynomial, lemma_eval_push, poly_eval};
use crate::random::entropy_source;
use crate::shamir_sharing::{
    dealt_xs, dealt_ys, lemma_reconstruction_recovers_secret, picks_distinct, reconstruction,
    selection,
};
use crate::share::{xs_of, ys_of, Share};
use num_bigint::BigUint;
use rand::rngs::StdRng;
use vstd::arithmetic::div_mod::{lemma_fundamental_div_mod, lemma_mod_twice, lemma_small_mod};
use vstd::arithmetic::mul::lemma_mul_is_associative;
use vstd::arithmetic::power::{
    lemma1_pow, lemma_pow0, lemma_pow1, lemma_pow_adds, lemma_pow_mod_noop, lemma_pow_multiplies,
    pow,
};
use vstd::prelude::*;
use vstd::slice::slice_subrange;

verus! {

/// What a `FeldmanVSS` was made with.
pub struct GroupParameters {
    /// The modulus of the group that the commitments live in.
    pub p: int,
    /// The modulus of the field that the shares live in: the order of `g`.
    pub q: int,
    /// The generator.
    pub g: int,
    /// How many shares give the secret back.
    pub threshold: int,
    /// How many shares a split hands out.
    pub total_shares: int,
}

impl GroupParameters {
    /// Both moduli are at least 2, and the threshold lies between 1 and
    /// the number of shares.
    pub open spec fn valid(self) -> bool {
        &&& self.p >= 2
        &&& self.q >= 2
        &&& 1 <= self.threshold <= self.total_shares
    }

    /// `g` raised to `q` is 1 modulo `p`: exponents of `g` count modulo
    /// `q`.
    pub open spec fn generator_has_order(self) -> bool {
        pow(self.g, self.q as nat) % self.p == 1
    }
}

/// The commitments to the coefficients `c`: `g` raised to each, modulo
/// `p`.
pub open spec fn commitments_of(c: Seq<int>, g: int, p: int) -> Seq<int> {
    Seq::new(c.len(), |i: int| pow(g, c[i] as nat) % p)
}

/// The product, over the commitments, of the `i`-th raised to `x^i`, the
/// exponent reduced modulo `q`.
pub open spec fn commitment_product(cs: Seq<int>, x: int, q: int) -> int
    decreases cs.len(),
{
    if cs.len() == 0 {
        1
    } else {
        commitment_product(cs.drop_last(), x, q) * pow(
            cs.last(),
            (pow(x, (cs.len() - 1) as nat) % q) as nat,
        )
    }
}

/// The share `(x, y)` agrees with the commitments `cs`: their product for
/// `x` is `g` raised to `y`, modulo `p`.
pub open spec fn share_matches(cs: Seq<int>, x: int, y: int, params: GroupParameters) -> bool {
    commitment_product(cs, x, params.q) % params.p == pow(params.g, y as nat) % params.p
}

/// Every share agrees with the commitments.
pub open spec fn all_shares_match(
    cs: Seq<int>,
    xs: Seq<int>,
    ys: Seq<int>,
    params: GroupParameters,
) -> bool {
    forall|k: int| 0 <= k < xs.len() ==> share_matches(cs, #[trigger] xs[k], ys[k], params)
}

/// The share at position `i` is the first that does not agree with the
/// commitments.
pub open spec fn is_first_mismatch(
    cs: Seq<int>,
    xs: Seq<int>,
    ys: Seq<int>,
    i: int,
    params: GroupParameters,
) -> bool {
    &&& 0 <= i < xs.len()
    &&& !share_matches(cs, xs[i], ys[i], params)
    &&& forall|k: int| 0 <= k < i ==> share_matches(cs, #[trigger] xs[k], ys[k], params)
}

/// `shares` and `commitments` are what a split of `secret` publishes for
/// some choice of the random coefficients.
pub open spec fn is_verifiable_split_of(
    shares: Seq<Share>,
    commitments: Seq<int>,
    secret: int,
    params: GroupParameters,
) -> bool {
    exists|c: Seq<int>|
        {
            &&& is_sharing_polynomial(c, secret, params.threshold, params.q)
            &&& xs_of(shares) == dealt_xs(params.total_shares)
            &&& ys_of(shares) == dealt_ys(c, params.total_shares, params.q)
            &&& #[trigger] commitments_of(c, params.g, params.p) == commitments
        }
}

/// The dealer's public commitments to the coefficients of one polynomial,
/// in the order of the coefficients.
#[derive(Debug, Clone)]
pub struct Commitment(Vec<BigUint>);

impl View for Commitment {
    type V = Seq<int>;

    closed spec fn view(&self) -> Seq<int> {
        values_of(self.0@)
    }
}

impl Commitment {
    /// The commitment with the given elements, in their order.
    pub fn new(elements: Vec<BigUint>) -> (r: Self)
        ensures
            r@ == values_of(elements@),
    {
        Commitment(elements)
    }

    /// The elements, in the order of the coefficients.
    pub fn elements(&self) -> (r: &Vec<BigUint>)
        ensures
            values_of(r@) == self@,
    {
        &self.0
    }
}

/// Splits secrets into shares that can be tested against public
/// commitments, and puts shares together again.
pub struct FeldmanVSS {
    p: BigUint,
    q: BigUint,
    g: BigUint,
    t: usize,
    n: usize,
}

impl View for FeldmanVSS {
    type V = GroupParameters;

    closed spec fn view(&self) -> GroupParameters {
        GroupParameters {
            p: value_of(self.p) as int,
            q: value_of(self.q) as int,
            g: value_of(self.g) as int,
            threshold: self.t as int,
            total_shares: self.n as int,
        }
    }
}

impl FeldmanVSS {
    #[verifier::type_invariant]
    spec fn well_formed(self) -> bool {
        self@.valid()
    }

    /// A sharer for `total_shares` shares, `threshold` of which give the
    /// secret back. Shares are computed modulo `q`, commitments are powers
    /// of `g` modulo `p`.
    ///
    /// That `p` and `q` are primes and that `g` has order `q` modulo `p`
    /// is the caller's part: it is not tested. A zero threshold, one
    /// above `total_shares`, or a modulus below 2 is `InvalidParameters`.
    pub fn new(p: BigUint, q: BigUint, g: BigUint, threshold: usize, total_shares: usize) -> (r:
        Result<Self, SharingError>)
        ensures
            r is Ok <==> 1 <= threshold <= total_shares && value_of(p) >= 2 && value_of(q) >= 2,
            r matches Ok(vss) ==> vss@ == (GroupParameters {
                p: value_of(p) as int,
                q: value_of(q) as int,
                g: value_of(g) as int,
                threshold: threshold as int,
                total_shares: total_shares as int,
            }),
            r matches Err(e) ==> e == SharingError::InvalidParameters,
    {
        let two = big_from_usize(2);
        if threshold == 0 || threshold > total_shares || big_lt(&p, &two) || big_lt(&q, &two) {
            return Err(SharingError::InvalidParameters);
        }
        Ok(FeldmanVSS { p, q, g, t: threshold, n: total_shares })
    }

    /// The modulus of the group of the commitments.
    pub fn p(&self) -> (r: &BigUint)
        ensures
            value_of(*r) == self@.p,
    {
        &self.p
    }

    /// The modulus of the field of the shares.
    pub fn q(&self) -> (r: &BigUint)
        ensures
            value_of(*r) == self@.q,
    {
        &self.q
    }

    /// The generator.
    pub fn g(&self) -> (r: &BigUint)
        ensures
            value_of(*r) == self@.g,
    {
        &self.g
    }

    /// How many shares give the secret back.
    pub fn threshold(&self) -> (t: usize)
        ensures
            t == self@.threshold,
    {
        self.t
    }

    /// How many shares a split hands out.
    pub fn total_shares(&self) -> (n: usize)
        ensures
            n == self@.total_shares,
    {
        self.n
    }

    /// `threshold` coefficients for sharing `secret`, the random ones
    /// drawn from `rng` below `q`.
    ///
    /// A secret that does not lie below `q` is `InvalidParameters`.
    pub fn generate_coefficients_with(&self, secret: &BigUint, rng: &mut StdRng) -> (r: Result<
        Vec<BigUint>,
        SharingError,
    >)
        ensures
            r is Ok <==> value_of(*secret) < self@.q,
            r matches Ok(c) ==> is_sharing_polynomial(
                values_of(c@),
                value_of(*secret) as int,
                self@.threshold,
                self@.q,
            ),
            r matches Err(e) ==> e == SharingError::InvalidParameters,
    {
        proof {
            use_type_invariant(self);
        }
        generate(secret, self.t, &self.q, rng)
    }

    /// `threshold` coefficients for sharing `secret`, the random ones from
    /// a generator that the operating system seeds afresh.
    ///
    /// A secret that does not lie below `q` is `InvalidParameters`. For
    /// every other secret the result is the coefficients, or
    /// `RandomnessUnavailable` where the system's source fails.
    pub fn generate_coefficients(&self, secret: &BigUint) -> (r: Result<Vec<BigUint>, SharingError>)
        ensures
            r matches Ok(c) ==> is_sharing_polynomial(
                values_of(c@),
                value_of(*secret) as int,
                self@.threshold,
                self@.q,
            ),
            r matches Err(e) ==> e == (if value_of(*secret) < self@.q {
                SharingError::RandomnessUnavailable
            } else {
                SharingError::InvalidParameters
            }),
    {
        if !big_lt(secret, &self.q) {
            return Err(SharingError::InvalidParameters);
        }
        match entropy_source() {
            Err(_) => Err(SharingError::RandomnessUnavailable),
            Ok(mut rng) => self.generate_coefficients_with(secret, &mut rng),
        }
    }

    /// The commitments to the given coefficients, in their order: `g`
    /// raised to each, modulo `p`.
    pub fn generate_commitments(&self, coefficients: &[BigUint]) -> (r: Commitment)
        ensures
            r@ == commitments_of(values_of(coefficients@), self@.g, self@.p),
    {
        proof {
            use_type_invariant(self);
        }
        let mut elements: Vec<BigUint> = Vec::new();
        let mut i: usize = 0;
        while i < coefficients.len()
            invariant
                i <= coefficients.len(),
                elements.len() == i,
                value_of(self.p) > 0,
                forall|k: int|
                    0 <= k < i ==> value_of(#[trigger] elements[k]) == pow(
                        value_of(self.g) as int,
                        value_of(coefficients[k]),
                    ) % (value_of(self.p) as int),
            decreases coefficients.len() - i,
        {
            let element = self.g.modpow(&coefficients[i], &self.p);
            elements.push(element);
            i += 1;
        }
        Commitment(elements)
    }

    /// The value at `x` of the polynomial with the given coefficients,
    /// modulo `q`.
    pub fn evaluate_polynomial(&self, coefficients: &[BigUint], x: &BigUint) -> (y: BigUint)
        ensures
            value_of(y) == poly_eval(values_of(coefficients@), value_of(*x) as int) % self@.q,
    {
        proof {
            use_type_invariant(self);
        }
        evaluate(coefficients, x, &self.q)
    }

    /// The inverse of `a` modulo `m`, or `NotInvertible` where it has none.
    pub fn mod_inverse(&self, a: &BigUint, m: &BigUint) -> (r: Result<BigUint, SharingError>)
        ensures
            r is Ok <==> has_inverse(value_of(*a) as int, value_of(*m) as int),
            r matches Ok(b) ==> is_inverse(
                value_of(*a) as int,
                value_of(b) as int,
                value_of(*m) as int,
            ),
            r matches Err(e) ==> e == SharingError::NotInvertible && !has_inverse(
                value_of(*a) as int,
                value_of(*m) as int,
            ),
    {
        field::mod_inverse(a, m)
    }

    /// The shares and the commitments of the polynomial with the given
    /// coefficients: its values modulo `q` at `1, 2, .., total_shares`,
    /// and `g` raised to each coefficient modulo `p`.
    pub fn split_with_coefficients(&self, coefficients: &[BigUint]) -> (r: (Vec<Share>, Commitment))
        ensures
            r.0.len() == self@.total_shares,
            forall|i: int| 0 <= i < r.0.len() ==> value_of(#[trigger] r.0[i].x) == i + 1,
            xs_of(r.0@) == dealt_xs(self@.total_shares),
            ys_of(r.0@) == dealt_ys(values_of(coefficients@), self@.total_shares, self@.q),
            r.1@ == commitments_of(values_of(coefficients@), self@.g, self@.p),
    {
        proof {
            use_type_invariant(self);
        }
        let commitments = self.generate_commitments(coefficients);
        let ghost c = values_of(coefficients@);
        let ghost q = value_of(self.q) as int;
        let mut shares: Vec<Share> = Vec::new();
        let mut i: usize = 0;
        while i < self.n
            invariant
                i <= self.n,
                shares.len() == i,
                c == values_of(coefficients@),
                q == self@.q,
                forall|k: int| 0 <= k < i ==> value_of(#[trigger] shares[k].x) == k + 1,
                forall|k: int|
                    0 <= k < i ==> value_of(#[trigger] shares[k].y) == poly_eval(c, k + 1) % q,
            decreases self.n - i,
        {
            let x = big_from_usize(i + 1);
            let y = self.evaluate_polynomial(coefficients, &x);
            shares.push(Share { x, y });
            i += 1;
        }
        (shares, commitments)
    }

    /// Splits `secret` into `total_shares` shares and the commitments to
    /// go with them, with coefficients drawn from `rng`.
    ///
    /// A secret that does not lie below `q` is `InvalidParameters`; every
    /// other secret is split.
    pub fn split_secret_with(&self, secret: &BigUint, rng: &mut StdRng) -> (r: Result<
        (Vec<Share>, Commitment),
        SharingError,
    >)
        ensures
            r is Ok <==> value_of(*secret) < self@.q,
            r matches Ok(dealt) ==> dealt.0.len() == self@.total_shares,
            r matches Ok(dealt) ==> forall|i: int|
                0 <= i < dealt.0.len() ==> value_of(#[trigger] dealt.0[i].x) == i + 1,
            r matches Ok(dealt) ==> is_verifiable_split_of(
                dealt.0@,
                dealt.1@,
                value_of(*secret) as int,
                self@,
            ),
            r matches Err(e) ==> e == SharingError::InvalidParameters,
    {
        match self.generate_coefficients_with(secret, rng) {
            Err(e) => Err(e),
            Ok(coefficients) => {
                let dealt = self.split_with_coefficients(coefficients.as_slice());
                Ok(dealt)
            },
        }
    }

    /// Splits `secret` into `total_shares` shares and the commitments to
    /// go with them, with coefficients from a generator that the
    /// operating system seeds afresh.
    ///
    /// A secret that does not lie below `q` is `InvalidParameters`. For
    /// every other secret the result is the shares and commitments, or
    /// `RandomnessUnavailable` where the system's source fails.
    pub fn split_secret(&self, secret: &BigUint) -> (r: Result<
        (Vec<Share>, Commitment),
        SharingError,
    >)
        ensures
            r matches Ok(dealt) ==> dealt.0.len() == self@.total_shares,
            r matches Ok(dealt) ==> forall|i: int|
                0 <= i < dealt.0.len() ==> value_of(#[trigger] dealt.0[i].x) == i + 1,
            r matches Ok(dealt) ==> is_verifiable_split_of(
                dealt.0@,
                dealt.1@,
                value_of(*secret) as int,
                self@,
            ),
            r matches Err(e) ==> e == (if value_of(*secret) < self@.q {
                SharingError::RandomnessUnavailable
            } else {
                SharingError::InvalidParameters
            }),
    {
        if !big_lt(secret, &self.q) {
            return Err(SharingError::InvalidParameters);
        }
        match entropy_source() {
            Err(_) => Err(SharingError::RandomnessUnavailable),
            Ok(mut rng) => self.split_secret_with(secret, &mut rng),
        }
    }

    /// Whether `share` agrees with `commitments`: the product of the
    /// commitments, the `i`-th raised to `x^i`, against `g` raised to `y`.
    /// The exponents `x^i` are reduced modulo `q`, the products modulo
    /// `p`. Commitments of another split make a share fail, not the call.
    pub fn verify_share(&self, share: &Share, commitments: &Commitment) -> (ok: bool)
        ensures
            ok == share_matches(
                commitments@,
                value_of(share.x) as int,
                value_of(share.y) as int,
                self@,
            ),
    {
        proof {
            use_type_invariant(self);
        }
        let ghost p = value_of(self.p) as int;
        let ghost q = value_of(self.q) as int;
        let ghost x = value_of(share.x) as int;
        let ghost cs = commitments@;
        let one = big_one();
        let mut lhs = big_rem(&one, &self.p);
        let mut x_power = big_rem(&one, &self.q);
        let mut i: usize = 0;
        proof {
            lemma_pow0(x);
        }
        while i < commitments.0.len()
            invariant
                i <= commitments.0.len(),
                p == value_of(self.p),
                q == value_of(self.q),
                p >= 2,
                q >= 2,
                x == value_of(share.x),
                cs == values_of(commitments.0@),
                value_of(lhs) == commitment_product(cs.take(i as int), x, q) % p,
                value_of(x_power) == pow(x, i as nat) % q,
            decreases commitments.0.len() - i,
        {
            let ghost product_before = commitment_product(cs.take(i as int), x, q);
            let ghost power = pow(x, i as nat);
            let term = commitments.0[i].modpow(&x_power, &self.p);
            lhs = mod_mul(&lhs, &term, &self.p);
            x_power = mod_mul(&x_power, &share.x, &self.q);
            proof {
                let factor = pow(cs[i as int], (power % q) as nat);
                assert(cs.take(i as int + 1).drop_last() =~= cs.take(i as int));
                lemma_mod_twice(product_before, p);
                lemma_mod_twice(factor, p);
                lemma_mul_congruent(product_before % p, product_before, factor % p, factor, p);
                lemma_mod_twice(power, q);
                lemma_mul_congruent(power % q, power, x, x, q);
                assert(power * x == pow(x, (i + 1) as nat)) by {
                    lemma_pow_adds(x, i as nat, 1);
                    lemma_pow1(x);
                }
            }
            i += 1;
        }
        proof {
            assert(cs.take(commitments.0.len() as int) =~= cs);
        }
        let rhs = self.g.modpow(&share.y, &self.p);
        big_eq(&lhs, &rhs)
    }

    /// The secret that `shares` hide: the interpolation at zero, modulo
    /// `q`, through the first `threshold` of them.
    ///
    /// Fewer shares than the threshold are `InsufficientShares`. A quorum
    /// that cannot be interpolated, as with two shares of the same `x`, is
    /// `NonInvertibleDenominator`.
    pub fn reconstruct_secret(&self, shares: &[Share]) -> (r: Result<BigUint, SharingError>)
        ensures
            r matches Ok(secret) ==> reconstruction(
                xs_of(shares@),
                ys_of(shares@),
                self@.threshold,
                self@.q,
            ) == Ok::<int, SharingError>(value_of(secret) as int),
            r matches Err(e) ==> reconstruction(
                xs_of(shares@),
                ys_of(shares@),
                self@.threshold,
                self@.q,
            ) == Err::<int, SharingError>(e),
    {
        proof {
            use_type_invariant(self);
        }
        if shares.len() < self.t {
            return Err(SharingError::InsufficientShares);
        }
        let quorum = slice_subrange(shares, 0, self.t);
        proof {
            assert(xs_of(quorum@) =~= xs_of(shares@).take(self.t as int));
            assert(ys_of(quorum@) =~= ys_of(shares@).take(self.t as int));
        }
        interpolate_at_zero(quorum, &self.q)
    }

    /// The secret that `shares` hide, after every one of them has been
    /// tested against `commitments`.
    ///
    /// Where a share does not agree with the commitments, the result is
    /// `ShareVerificationFailed` with the position of the first such
    /// share, and nothing is interpolated. Where all agree, the result is
    /// that of `reconstruct_secret`.
    pub fn reconstruct_with_verification(&self, shares: &[Share], commitments: &Commitment) -> (r:
        Result<BigUint, SharingError>)
        ensures
            r matches Err(SharingError::ShareVerificationFailed(i)) ==> is_first_mismatch(
                commitments@,
                xs_of(shares@),
                ys_of(shares@),
                i as int,
                self@,
            ),
            r matches Ok(secret) ==> all_shares_match(
                commitments@,
                xs_of(shares@),
                ys_of(shares@),
                self@,
            ) && reconstruction(xs_of(shares@), ys_of(shares@), self@.threshold, self@.q) == Ok::<
                int,
                SharingError,
            >(value_of(secret) as int),
            r matches Err(e) ==> e is ShareVerificationFailed || (all_shares_match(
                commitments@,
                xs_of(shares@),
                ys_of(shares@),
                self@,
            ) && reconstruction(xs_of(shares@), ys_of(shares@), self@.threshold, self@.q) == Err::<
                int,
                SharingError,
            >(e)),
    {
        let mut i: usize = 0;
        while i < shares.len()
            invariant
                i <= shares.len(),
                forall|k: int|
                    0 <= k < i ==> share_matches(
                        commitments@,
                        #[trigger] xs_of(shares@)[k],
                        ys_of(shares@)[k],
                        self@,
                    ),
            decreases shares.len() - i,
        {
            if !self.verify_share(&shares[i], commitments) {
                return Err(SharingError::ShareVerificationFailed(i));
            }
            i += 1;
        }
        self.reconstruct_secret(shares)
    }
}

/// Where `g` raised to `q` is 1 modulo `p`, the powers of `g` modulo `p`
/// depend only on the exponent modulo `q`.
pub proof fn lemma_exponent_reduces(g: int, e: nat, q: int, p: int)
    requires
        p >= 2,
        q >= 1,
        pow(g, q as nat) % p == 1,
    ensures
        pow(g, e) % p == pow(g, (e % (q as nat)) as nat) % p,
{
    let k = (e as int) / q;
    let r = (e as int) % q;
    lemma_fundamental_div_mod(e as int, q);
    // g^e == (g^q)^k * g^r, and (g^q)^k leaves 1
    lemma_pow_adds(g, (q * k) as nat, r as nat);
    lemma_pow_multiplies(g, q as nat, k as nat);
    lemma_pow_mod_noop(pow(g, q as nat), k as nat, p);
    lemma1_pow(k as nat);
    lemma_mul_congruent(pow(pow(g, q as nat), k as nat), 1, pow(g, r as nat), pow(g, r as nat), p);
}

/// The sum, over `i` below `k`, of `c[i]` times `x^i`, the power reduced
/// modulo `q`: the exponent of `g` in the product of the first `k`
/// commitments.
spec fn committed_exponent(c: Seq<int>, x: int, q: int, k: int) -> int
    decreases k,
{
    if k <= 0 {
        0
    } else {
        committed_exponent(c, x, q, k - 1) + c[k - 1] * (pow(x, (k - 1) as nat) % q)
    }
}

/// The product of the first `k` commitments to `c` is `g` raised to
/// `committed_exponent`, which leaves what the value of the first `k`
/// terms of `c` leaves modulo `q`.
proof fn lemma_commitment_product(c: Seq<int>, x: int, g: int, q: int, p: int, k: int)
    requires
        p >= 2,
        q >= 2,
        0 <= k <= c.len(),
        forall|i: int| 0 <= i < c.len() ==> #[trigger] c[i] >= 0,
    ensures
        committed_exponent(c, x, q, k) >= 0,
        commitment_product(commitments_of(c, g, p).take(k), x, q) % p == pow(
            g,
            committed_exponent(c, x, q, k) as nat,
        ) % p,
        committed_exponent(c, x, q, k) % q == poly_eval(c.take(k), x) % q,
    decreases k,
{
    let cs = commitments_of(c, g, p);
    if k == 0 {
        lemma_pow0(g);
    } else {
        lemma_commitment_product(c, x, g, q, p, k - 1);
        let before = committed_exponent(c, x, q, k - 1);
        let reduced = pow(x, (k - 1) as nat) % q;
        let coefficient = c[k - 1];
        // the exponent
        assert(c.take(k) =~= c.take(k - 1).push(coefficient));
        lemma_eval_push(c.take(k - 1), coefficient, x);
        lemma_mod_twice(pow(x, (k - 1) as nat), q);
        lemma_mul_congruent(coefficient, coefficient, reduced, pow(x, (k - 1) as nat), q);
        lemma_add_congruent(
            before,
            poly_eval(c.take(k - 1), x),
            coefficient * reduced,
            coefficient * pow(x, (k - 1) as nat),
            q,
        );
        // the product
        let product_before = commitment_product(cs.take(k - 1), x, q);
        let factor = pow(cs[k - 1], reduced as nat);
        assert(cs.take(k).drop_last() =~= cs.take(k - 1));
        assert(factor % p == pow(g, (coefficient * reduced) as nat) % p) by {
            lemma_pow_mod_noop(pow(g, coefficient as nat), reduced as nat, p);
            lemma_pow_multiplies(g, coefficient as nat, reduced as nat);
        }
        lemma_mul_congruent(
            product_before,
            pow(g, before as nat),
            factor,
            pow(g, (coefficient * reduced) as nat),
            p,
        );
        lemma_pow_adds(g, before as nat, (coefficient * reduced) as nat);
    }
}

/// Soundness of verification: a share of the committed polynomial agrees
/// with the commitments.
///
/// Let `g` raised to `q` be 1 modulo `p`, and `c` a polynomial without
/// negative coefficients. Then the share `(x, c(x) mod q)` agrees with
/// the commitments to `c`, for every `x`.
pub proof fn lemma_committed_share_matches(c: Seq<int>, x: int, params: GroupParameters)
    requires
        params.valid(),
        params.generator_has_order(),
        forall|i: int| 0 <= i < c.len() ==> #[trigger] c[i] >= 0,
    ensures
        share_matches(
            commitments_of(c, params.g, params.p),
            x,
            poly_eval(c, x) % params.q,
            params,
        ),
{
    let n = c.len() as int;
    let cs = commitments_of(c, params.g, params.p);
    let exponent = committed_exponent(c, x, params.q, n);
    lemma_commitment_product(c, x, params.g, params.q, params.p, n);
    assert(cs.take(n) =~= cs);
    assert(c.take(n) =~= c);
    lemma_exponent_reduces(params.g, exponent as nat, params.q, params.p);
}

/// Every share of a split agrees with the commitments of the same split.
pub proof fn lemma_split_shares_match(
    shares: Seq<Share>,
    commitments: Seq<int>,
    secret: int,
    params: GroupParameters,
    i: int,
)
    requires
        params.valid(),
        params.generator_has_order(),
        is_verifiable_split_of(shares, commitments, secret, params),
        0 <= i < shares.len(),
    ensures
        share_matches(commitments, xs_of(shares)[i], ys_of(shares)[i], params),
{
    let c = choose|c: Seq<int>|
        {
            &&& is_sharing_polynomial(c, secret, params.threshold, params.q)
            &&& xs_of(shares) == dealt_xs(params.total_shares)
            &&& ys_of(shares) == dealt_ys(c, params.total_shares, params.q)
            &&& #[trigger] commitments_of(c, params.g, params.p) == commitments
        };
    assert(xs_of(shares).len() == shares.len());
    lemma_committed_share_matches(c, i + 1, params);
}

/// A tampered share is found out: where the share `(x, y)` agrees with
/// the commitments, the share `(x, y + 1 mod q)` does not.
///
/// This needs `g` to have order `q` modulo `p` and not to be 1 itself.
pub proof fn lemma_tampered_share_fails(cs: Seq<int>, x: int, y: int, params: GroupParameters)
    requires
        params.valid(),
        params.generator_has_order(),
        params.g % params.p != 1,
        0 <= y < params.q,
        share_matches(cs, x, y, params),
    ensures
        !share_matches(cs, x, (y + 1) % params.q, params),
{
    let g = params.g;
    let p = params.p;
    let q = params.q;
    if share_matches(cs, x, (y + 1) % q, params) {
        // g^y and g^(y + 1) leave the same; multiplied by g^(q - y) they
        // leave 1 and g
        lemma_exponent_reduces(g, (y + 1) as nat, q, p);
        let low = pow(g, y as nat);
        let rest = pow(g, (q - y) as nat);
        assert(pow(g, (y + 1) as nat) == low * g) by {
            lemma_pow_adds(g, y as nat, 1);
            lemma_pow1(g);
        }
        assert(rest * low == pow(g, q as nat)) by {
            lemma_pow_adds(g, (q - y) as nat, y as nat);
        }
        lemma_mul_congruent(rest, rest, low, low * g, p);
        assert(rest * (low * g) == (rest * low) * g) by {
            lemma_mul_is_associative(rest, low, g);
        }
        lemma_small_mod(1, p as nat);
        lemma_mul_congruent(rest * low, 1, g, g, p);
    }
}

/// Where `g` has the prime order `q` modulo `p`, two powers of `g` leave
/// the same remainder modulo `p` exactly when their exponents leave the
/// same remainder modulo `q`.
pub proof fn lemma_powers_agree_iff_exponents_agree(g: int, a: nat, b: nat, q: int, p: int)
    requires
        p >= 2,
        is_prime(q),
        pow(g, q as nat) % p == 1,
        g % p != 1,
    ensures
        pow(g, a) % p == pow(g, b) % p <==> (a as int) % q == (b as int) % q,
{
    lemma_exponent_reduces(g, a, q, p);
    lemma_exponent_reduces(g, b, q, p);
    let ar = (a as int) % q;
    let br = (b as int) % q;
    if pow(g, a) % p == pow(g, b) % p && ar != br {
        let (high, low) = if ar > br {
            (ar, br)
        } else {
            (br, ar)
        };
        let d = high - low;
        // g^d leaves 1: multiply g^high and g^low by g^(q - low)
        let rest = pow(g, (q - low) as nat);
        assert(pow(g, d as nat) % p == 1) by {
            lemma_small_mod(1, p as nat);
            lemma_pow_adds(g, (q - low) as nat, low as nat);
            lemma_pow_adds(g, (q - low) as nat, high as nat);
            lemma_pow_adds(g, q as nat, d as nat);
            lemma_mul_congruent(rest, rest, pow(g, high as nat), pow(g, low as nat), p);
            lemma_mul_congruent(pow(g, q as nat), 1, pow(g, d as nat), pow(g, d as nat), p);
        }
        // d has an inverse u modulo q, and g == g^(d * u) == (g^d)^u == 1
        lemma_small_mod(d as nat, q as nat);
        lemma_prime_inverse_exists(d, q);
        let u = inverse_of(d, q);
        lemma_exponent_reduces(g, (d * u) as nat, q, p);
        lemma_pow1(g);
        lemma_pow_multiplies(g, d as nat, u as nat);
        lemma_pow_mod_noop(pow(g, d as nat), u as nat, p);
        lemma1_pow(u as nat);
        lemma_small_mod(1, p as nat);
    }
}

/// Verification is exact: a share agrees with the commitments to a
/// polynomial exactly when it lies on the polynomial.
///
/// Let `g` have the prime order `q` modulo `p`, and `c` be a polynomial
/// without negative coefficients. Then a share `(x, y)` with `y` below `q`
/// agrees with the commitments to `c` if and only if `y` is `c(x)` modulo
/// `q`.
pub proof fn lemma_share_matches_iff_on_polynomial(
    c: Seq<int>,
    x: int,
    y: int,
    params: GroupParameters,
)
    requires
        params.valid(),
        is_prime(params.q),
        params.generator_has_order(),
        params.g % params.p != 1,
        forall|i: int| 0 <= i < c.len() ==> #[trigger] c[i] >= 0,
        0 <= y < params.q,
    ensures
        share_matches(commitments_of(c, params.g, params.p), x, y, params) <==> y == poly_eval(
            c,
            x,
        ) % params.q,
{
    let value = poly_eval(c, x) % params.q;
    lemma_committed_share_matches(c, x, params);
    lemma_powers_agree_iff_exponents_agree(
        params.g,
        value as nat,
        y as nat,
        params.q,
        params.p,
    );
    lemma_small_mod(value as nat, params.q as nat);
    lemma_small_mod(y as nat, params.q as nat);
}

/// Round trip with commitments: any `threshold` shares of a split pass
/// verification and give the secret back.
///
/// Let `q` be prime, `g` raised to `q` be 1 modulo `p`, and `shares` and
/// `commitments` come from a split of `secret` into no more than `q`
/// shares. Pick at least `threshold` of the shares, none twice, in any
/// order. Then every picked share agrees with the commitments, and
/// reconstruction from the picked shares gives the secret.
pub proof fn lemma_verifiable_round_trip(
    shares: Seq<Share>,
    commitments: Seq<int>,
    secret: int,
    params: GroupParameters,
    picked: Seq<int>,
)
    requires
        params.valid(),
        is_prime(params.q),
        params.generator_has_order(),
        params.total_shares <= params.q,
        is_verifiable_split_of(shares, commitments, secret, params),
        picked.len() >= params.threshold,
        picks_distinct(picked, params.total_shares),
    ensures
        all_shares_match(
            commitments,
            selection(xs_of(shares), picked),
            selection(ys_of(shares), picked),
            params,
        ),
        reconstruction(
            selection(xs_of(shares), picked),
            selection(ys_of(shares), picked),
            params.threshold,
            params.q,
        ) == Ok::<int, SharingError>(secret),
{
    let c = choose|c: Seq<int>|
        {
            &&& is_sharing_polynomial(c, secret, params.threshold, params.q)
            &&& xs_of(shares) == dealt_xs(params.total_shares)
            &&& ys_of(shares) == dealt_ys(c, params.total_shares, params.q)
            &&& #[trigger] commitments_of(c, params.g, params.p) == commitments
        };
    lemma_reconstruction_recovers_secret(c, params.total_shares, params.q, picked);
    let xs = selection(xs_of(shares), picked);
    let ys = selection(ys_of(shares), picked);
    assert(xs_of(shares).len() == params.total_shares);
    assert forall|k: int| 0 <= k < xs.len() implies share_matches(
        commitments,
        #[trigger] xs[k],
        ys[k],
        params,
    ) by {
        lemma_split_shares_match(shares, commitments, secret, params, picked[k]);
    }
}

} // verus!
