//! Arithmetic modulo a number: products, sums, powers and inverses.

use crate::bignum::{
    big_add, big_div, big_eq, big_from_usize, big_is_zero, big_lt, big_mul, big_one, big_rem,
    big_sub, big_zero, value_of,
};
use crate::error::SharingError;
use crate::number_theory::{
    gcd, has_inverse, is_inverse, lemma_bezout, lemma_common_divisor_blocks_inverse,
    lemma_divides_combination, lemma_mul_congruent, lemma_sub_congruent,
};
use num_bigint::BigUint;
use vstd::arithmetic::div_mod::{
    lemma_fundamental_div_mod, lemma_mod_add_multiples_vanish, lemma_mod_twice, lemma_small_mod,
};
use vstd::arithmetic::mul::{
    lemma_mul_is_associative, lemma_mul_is_commutative, lemma_mul_is_distributive_sub_other_way,
};
use vstd::arithmetic::power::{
    lemma_pow0, lemma_pow1, lemma_pow_adds, lemma_pow_mod_noop, lemma_pow_multiplies,
    lemma_square_is_pow2, pow,
};
use vstd::prelude::*;

verus! {

/// The product of `a` and `b`, reduced modulo `m`.
pub fn mod_mul(a: &BigUint, b: &BigUint, m: &BigUint) -> (r: BigUint)
    requires
        value_of(*m) > 0,
    ensures
        value_of(r) == (value_of(*a) * value_of(*b)) % value_of(*m),
{
    let product = big_mul(a, b);
    big_rem(&product, m)
}

/// The sum of `a` and `b`, reduced modulo `m`.
pub fn mod_add(a: &BigUint, b: &BigUint, m: &BigUint) -> (r: BigUint)
    requires
        value_of(*m) > 0,
    ensures
        value_of(r) == (value_of(*a) + value_of(*b)) % value_of(*m),
{
    let sum = big_add(a, b);
    big_rem(&sum, m)
}

/// The difference `a - b` modulo `m`, as the remainder in `[0, m)`. Both
/// numbers are reduced first and `m` is added before subtracting, so no
/// step goes below zero.
pub fn mod_sub(a: &BigUint, b: &BigUint, m: &BigUint) -> (r: BigUint)
    requires
        value_of(*m) > 0,
    ensures
        value_of(r) == (value_of(*a) - value_of(*b)) % (value_of(*m) as int),
{
    let a_red = big_rem(a, m);
    let b_red = big_rem(b, m);
    let lifted = big_add(&a_red, m);
    let diff = big_sub(&lifted, &b_red);
    let r = big_rem(&diff, m);
    proof {
        let mi = value_of(*m) as int;
        let ai = value_of(*a) as int;
        let bi = value_of(*b) as int;
        lemma_mod_add_multiples_vanish(ai % mi, mi);
        lemma_mod_twice(ai, mi);
        lemma_mod_twice(bi, mi);
        lemma_sub_congruent(mi + ai % mi, ai, bi % mi, bi, mi);
    }
    r
}

/// Splitting an exponent into halves: `b^e` is `(b * b)^(e / 2)`, times `b`
/// where `e` is odd.
proof fn lemma_pow_halves(b: int, e: nat)
    ensures
        pow(b, e) == pow(b * b, e / 2) * (if e % 2 == 1 {
            b
        } else {
            1
        }),
{
    let h = e / 2;
    lemma_square_is_pow2(b);
    lemma_pow_multiplies(b, 2, h);
    if e % 2 == 1 {
        lemma_pow_adds(b, 2 * h, 1);
        lemma_pow1(b);
    }
}

/// `base` raised to `exponent`, reduced modulo `modulus`, by squaring and
/// multiplying: one squaring for each bit of the exponent.
pub fn mod_pow(base: &BigUint, exponent: &BigUint, modulus: &BigUint) -> (r: BigUint)
    requires
        value_of(*modulus) > 0,
    ensures
        value_of(r) == pow(value_of(*base) as int, value_of(*exponent)) % (value_of(
            *modulus,
        ) as int),
{
    let ghost m = value_of(*modulus) as int;
    let ghost target = pow(value_of(*base) as int, value_of(*exponent)) % m;
    let two = big_from_usize(2);
    let one = big_one();
    let mut result = big_rem(&one, modulus);
    let mut b = big_rem(base, modulus);
    let mut e = exponent.clone();
    proof {
        lemma_pow_mod_noop(value_of(*base) as int, value_of(*exponent), m);
        lemma_mod_twice(1, m);
        lemma_mul_congruent(
            value_of(result) as int,
            1,
            pow(value_of(b) as int, value_of(e)),
            pow(value_of(*base) as int, value_of(*exponent)),
            m,
        );
    }
    while !big_is_zero(&e)
        invariant
            m == value_of(*modulus),
            m > 0,
            value_of(two) == 2,
            value_of(result) < m,
            (value_of(result) * pow(value_of(b) as int, value_of(e))) % m == target,
        decreases value_of(e),
    {
        let ghost old_result = value_of(result) as int;
        let ghost old_b = value_of(b) as int;
        let ghost old_e = value_of(e);
        let bit = big_rem(&e, &two);
        if !big_is_zero(&bit) {
            result = mod_mul(&result, &b, modulus);
        }
        b = mod_mul(&b, &b, modulus);
        e = big_div(&e, &two);
        proof {
            let new_result = value_of(result) as int;
            let factor: int = if old_e % 2 == 1 {
                old_b
            } else {
                1
            };
            lemma_pow_halves(old_b, old_e);
            lemma_pow_mod_noop(old_b * old_b, value_of(e), m);
            lemma_mod_twice(old_result * old_b, m);
            lemma_mul_congruent(
                new_result,
                old_result * factor,
                pow(value_of(b) as int, value_of(e)),
                pow(old_b * old_b, value_of(e)),
                m,
            );
            assert((old_result * factor) * pow(old_b * old_b, value_of(e)) == old_result * pow(
                old_b,
                old_e,
            )) by {
                lemma_mul_is_associative(old_result, factor, pow(old_b * old_b, value_of(e)));
                lemma_mul_is_commutative(factor, pow(old_b * old_b, value_of(e)));
            }
        }
    }
    proof {
        lemma_pow0(value_of(b) as int);
        lemma_small_mod(value_of(result), m as nat);
    }
    result
}

/// The inverse of `a` modulo `modulus`, by the extended algorithm of Euclid.
/// The running coefficient is kept in `[0, modulus)`: where the classical
/// algorithm subtracts, the modulus is added first.
///
/// There is an inverse exactly when `modulus` is above 1 and shares no
/// divisor with `a`; without one the result is `NotInvertible`.
pub fn mod_inverse(a: &BigUint, modulus: &BigUint) -> (r: Result<BigUint, SharingError>)
    ensures
        r is Ok <==> has_inverse(value_of(*a) as int, value_of(*modulus) as int),
        r matches Ok(b) ==> is_inverse(
            value_of(*a) as int,
            value_of(b) as int,
            value_of(*modulus) as int,
        ),
        r matches Err(e) ==> e == SharingError::NotInvertible && !has_inverse(
            value_of(*a) as int,
            value_of(*modulus) as int,
        ),
{
    let ghost m = value_of(*modulus) as int;
    let ghost av = value_of(*a) as int;
    let one = big_one();
    if !big_lt(&one, modulus) {
        return Err(SharingError::NotInvertible);
    }
    let mut t = big_zero();
    let mut new_t = big_one();
    let mut r = modulus.clone();
    let mut new_r = big_rem(a, modulus);
    proof {
        lemma_small_mod(0, m as nat);
        lemma_mod_twice(av, m);
    }
    while !big_is_zero(&new_r)
        invariant
            m == value_of(*modulus),
            av == value_of(*a),
            m > 1,
            value_of(r) > 0,
            value_of(t) < m,
            value_of(new_t) < m,
            (value_of(t) * av) % m == (value_of(r) as int) % m,
            (value_of(new_t) * av) % m == (value_of(new_r) as int) % m,
            gcd(value_of(r) as int, value_of(new_r) as int) == gcd(m, av % m),
        decreases value_of(new_r),
    {
        let ghost tv = value_of(t) as int;
        let ghost ntv = value_of(new_t) as int;
        let ghost rv = value_of(r) as int;
        let ghost nrv = value_of(new_r) as int;
        let quotient = big_div(&r, &new_r);
        let next_r = big_rem(&r, &new_r);
        let step = mod_mul(&quotient, &new_t, modulus);
        let next_t = mod_sub(&t, &step, modulus);
        proof {
            let q = value_of(quotient) as int;
            lemma_fundamental_div_mod(rv, nrv);
            // next_t == t - q * new_t, and so next_t * a == r - q * new_r,
            // all modulo m
            lemma_mod_twice(q * ntv, m);
            lemma_sub_congruent(tv, tv, value_of(step) as int, q * ntv, m);
            lemma_small_mod(value_of(next_t), m as nat);
            lemma_mul_congruent(value_of(next_t) as int, tv - q * ntv, av, av, m);
            assert((tv - q * ntv) * av == tv * av - q * (ntv * av)) by {
                lemma_mul_is_distributive_sub_other_way(av, tv, q * ntv);
                lemma_mul_is_associative(q, ntv, av);
            }
            lemma_mul_congruent(q, q, ntv * av, nrv, m);
            lemma_sub_congruent(tv * av, rv, q * (ntv * av), q * nrv, m);
        }
        t = new_t;
        new_t = next_t;
        r = new_r;
        new_r = next_r;
    }
    proof {
        let g = value_of(r) as int;
        let _ = lemma_bezout(m, av % m);
        // g divides m and a % m, and with them a
        lemma_fundamental_div_mod(av, m);
        lemma_divides_combination(g, m, av / m, av % m);
        if g > 1 {
            lemma_common_divisor_blocks_inverse(av, m, g);
        } else {
            lemma_small_mod(1, m as nat);
            lemma_mul_is_commutative(value_of(t) as int, av);
            assert(is_inverse(av, value_of(t) as int, m));
        }
    }
    if big_eq(&r, &one) {
        Ok(t)
    } else {
        Err(SharingError::NotInvertible)
    }
}

} // verus!
