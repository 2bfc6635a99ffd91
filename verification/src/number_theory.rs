//! Facts about remainders, primes and modular inverses.
//!
//! Everything here is ghost code over `int`. The executable field arithmetic
//! and the interpolation proofs both rest on it.

use vstd::arithmetic::div_mod::{
    lemma_add_mod_noop, lemma_fundamental_div_mod, lemma_mod_is_zero, lemma_mod_multiples_vanish,
    lemma_mul_mod_noop_general, lemma_small_mod, lemma_sub_mod_noop,
};
use vstd::arithmetic::mul::{
    lemma_mul_is_associative, lemma_mul_is_commutative, lemma_mul_is_distributive_add,
    lemma_mul_is_distributive_sub_other_way,
};
use vstd::prelude::*;

verus! {

/// `p` is a prime number.
pub open spec fn is_prime(p: int) -> bool {
    &&& p >= 2
    &&& forall|d: int| 1 < d < p ==> #[trigger] (p % d) != 0
}

/// `b` is the inverse of `a` modulo `m`, reduced into `[0, m)`.
pub open spec fn is_inverse(a: int, b: int, m: int) -> bool {
    &&& 0 <= b < m
    &&& (a * b) % m == 1
}

/// `a` has an inverse modulo `m`.
pub open spec fn has_inverse(a: int, m: int) -> bool {
    exists|b: int| is_inverse(a, b, m)
}

/// The inverse of `a` modulo `m`, where there is one.
pub open spec fn inverse_of(a: int, m: int) -> int {
    choose|b: int| is_inverse(a, b, m)
}

/// Products may be reduced factor by factor: `(a * b) % m` depends only on
/// the remainders of `a` and `b`.
pub proof fn lemma_mul_congruent(a1: int, a2: int, b1: int, b2: int, m: int)
    requires
        m > 0,
        a1 % m == a2 % m,
        b1 % m == b2 % m,
    ensures
        (a1 * b1) % m == (a2 * b2) % m,
{
    lemma_mul_mod_noop_general(a1, b1, m);
    lemma_mul_mod_noop_general(a2, b2, m);
}

/// Sums may be reduced term by term.
pub proof fn lemma_add_congruent(a1: int, a2: int, b1: int, b2: int, m: int)
    requires
        m > 0,
        a1 % m == a2 % m,
        b1 % m == b2 % m,
    ensures
        (a1 + b1) % m == (a2 + b2) % m,
{
    lemma_add_mod_noop(a1, b1, m);
    lemma_add_mod_noop(a2, b2, m);
}

/// Differences may be reduced term by term.
pub proof fn lemma_sub_congruent(a1: int, a2: int, b1: int, b2: int, m: int)
    requires
        m > 0,
        a1 % m == a2 % m,
        b1 % m == b2 % m,
    ensures
        (a1 - b1) % m == (a2 - b2) % m,
{
    lemma_sub_mod_noop(a1, b1, m);
    lemma_sub_mod_noop(a2, b2, m);
}

/// A multiple of `d` plus a multiple of `d` is a multiple of `d`.
pub proof fn lemma_divides_combination(d: int, x: int, k: int, y: int)
    requires
        d > 0,
        x % d == 0,
        y % d == 0,
    ensures
        (x * k + y) % d == 0,
{
    lemma_fundamental_div_mod(x, d);
    let c = (x / d) * k;
    assert(x * k == d * c) by {
        lemma_mul_is_associative(d, x / d, k);
    }
    lemma_mod_multiples_vanish(c, y, d);
}

/// An inverse modulo `m` is unique.
pub proof fn lemma_inverse_unique(a: int, b1: int, b2: int, m: int)
    requires
        is_inverse(a, b1, m),
        is_inverse(a, b2, m),
    ensures
        b1 == b2,
{
    // b1 == b1 * (a * b2) == (a * b1) * b2 == b2, all modulo m
    assert(b1 * (a * b2) == (a * b1) * b2) by {
        lemma_mul_is_associative(b1, a, b2);
    }
    lemma_small_mod(1, m as nat);
    lemma_mul_congruent(b1, b1, a * b2, 1, m);
    lemma_mul_congruent(a * b1, 1, b2, b2, m);
    lemma_small_mod(b1 as nat, m as nat);
    lemma_small_mod(b2 as nat, m as nat);
}

/// Where `a` has an inverse modulo `m`, `inverse_of` names it.
pub proof fn lemma_inverse_of_is_inverse(a: int, b: int, m: int)
    requires
        is_inverse(a, b, m),
    ensures
        has_inverse(a, m),
        inverse_of(a, m) == b,
{
    lemma_inverse_unique(a, b, inverse_of(a, m), m);
}

/// Whether `a` has an inverse depends only on its remainder, and so does
/// the inverse.
pub proof fn lemma_inverse_of_remainder(a: int, m: int)
    requires
        m > 0,
    ensures
        has_inverse(a % m, m) == has_inverse(a, m),
        has_inverse(a, m) ==> inverse_of(a % m, m) == inverse_of(a, m),
{
    if has_inverse(a, m) {
        let b = inverse_of(a, m);
        lemma_mul_mod_noop_general(a, b, m);
        lemma_inverse_of_is_inverse(a % m, b, m);
    }
    if has_inverse(a % m, m) {
        let b = inverse_of(a % m, m);
        lemma_mul_mod_noop_general(a, b, m);
        assert(is_inverse(a, b, m));
    }
}

/// A number with a common divisor with `m` above 1 has no inverse modulo `m`.
pub proof fn lemma_common_divisor_blocks_inverse(a: int, m: int, d: int)
    requires
        d > 1,
        m > 0,
        a % d == 0,
        m % d == 0,
    ensures
        !has_inverse(a, m),
{
    if has_inverse(a, m) {
        let b = inverse_of(a, m);
        // a * b == m * k + 1, and d divides a * b and m * k
        let k = (a * b) / m;
        lemma_divides_combination(d, a, b, 0);
        lemma_divides_combination(d, m, -k, a * b);
        assert(m * (-k) + a * b == 1) by {
            lemma_mul_is_distributive_add(m, -k, k);
            assert(m * 0 == 0);
        }
        lemma_small_mod(1, d as nat);
    }
}

/// The greatest common divisor of two naturals, by Euclid's algorithm.
pub open spec fn gcd(a: int, b: int) -> int
    decreases b,
{
    if b <= 0 {
        a
    } else {
        gcd(b, a % b)
    }
}

/// Bezout's identity: the greatest common divisor of `a` and `b` divides
/// both and is a combination of the two. Returns the coefficients `(u, v)`.
pub proof fn lemma_bezout(a: int, b: int) -> (r: (int, int))
    requires
        a >= 0,
        b >= 0,
        a + b > 0,
    ensures
        gcd(a, b) > 0,
        gcd(a, b) == r.0 * a + r.1 * b,
        a % gcd(a, b) == 0,
        b % gcd(a, b) == 0,
    decreases b,
{
    if b == 0 {
        (1, 0)
    } else {
        let q = a / b;
        let rem = a % b;
        let g = gcd(a, b);
        let (u1, v1) = lemma_bezout(b, rem);
        lemma_fundamental_div_mod(a, b);
        // g == u1 * b + v1 * rem, and rem == a - b * q
        let v = u1 - v1 * q;
        assert(g == v1 * a + v * b) by {
            assert(v1 * rem == v1 * a - v1 * (b * q)) by {
                lemma_mul_is_distributive_sub_other_way(v1, a, b * q);
                lemma_mul_is_commutative(v1, a - b * q);
            }
            assert(v1 * (b * q) == (v1 * q) * b) by {
                lemma_mul_is_associative(v1, q, b);
            }
            assert(v * b == u1 * b - (v1 * q) * b) by {
                lemma_mul_is_distributive_sub_other_way(b, u1, v1 * q);
            }
        }
        assert(a % g == 0) by {
            lemma_divides_combination(g, b, q, rem);
        }
        (v1, v)
    }
}

/// Modulo `m > 1`, a natural has an inverse exactly when it is coprime to
/// `m`.
pub proof fn lemma_inverse_iff_coprime(a: int, m: int)
    requires
        a >= 0,
        m > 1,
    ensures
        has_inverse(a, m) <==> gcd(a, m) == 1,
{
    let (u, v) = lemma_bezout(a, m);
    let g = gcd(a, m);
    if g == 1 {
        // 1 == u * a + v * m, so u * a leaves 1
        assert((u * a) % m == 1) by {
            lemma_mul_is_commutative(v, m);
            lemma_mod_multiples_vanish(v, u * a, m);
            lemma_small_mod(1, m as nat);
        }
        let b = u % m;
        assert((a * b) % m == 1) by {
            lemma_mul_mod_noop_general(a, u, m);
            lemma_mul_is_commutative(u, a);
        }
        assert(is_inverse(a, b, m));
    } else {
        lemma_common_divisor_blocks_inverse(a, m, g);
    }
}

/// Modulo a prime, every number that the prime does not divide has an
/// inverse.
pub proof fn lemma_prime_inverse_exists(a: int, p: int)
    requires
        is_prime(p),
        a % p != 0,
    ensures
        has_inverse(a, p),
{
    let r = a % p;
    let g = gcd(r, p);
    let _ = lemma_bezout(r, p);
    // g divides r, so it is below the prime p; and it divides p
    assert(g <= r) by {
        lemma_mod_is_zero(r as nat, g as nat);
    }
    assert(g == 1);
    lemma_inverse_iff_coprime(r, p);
    lemma_inverse_of_remainder(a, p);
}

/// Euclid's lemma: a prime that divides a product divides a factor.
pub proof fn lemma_prime_divides_product(x: int, y: int, p: int)
    requires
        is_prime(p),
        (x * y) % p == 0,
    ensures
        x % p == 0 || y % p == 0,
{
    if x % p != 0 {
        lemma_prime_inverse_exists(x, p);
        let b = inverse_of(x, p);
        // y == y * (x * b) == (x * y) * b == 0, all modulo p
        assert(y * (x * b) == (x * y) * b) by {
            lemma_mul_is_associative(y, x, b);
        }
        lemma_small_mod(1, p as nat);
        lemma_mul_congruent(y, y, x * b, 1, p);
        lemma_mul_congruent(x * y, 0, b, b, p);
    }
}

/// Modulo a prime, a number has an inverse exactly when the prime does not
/// divide it.
pub proof fn lemma_prime_inverse_iff_nonzero(a: int, p: int)
    requires
        is_prime(p),
    ensures
        has_inverse(a, p) <==> a % p != 0,
{
    if a % p != 0 {
        lemma_prime_inverse_exists(a, p);
    } else if has_inverse(a, p) {
        let b = inverse_of(a, p);
        lemma_mul_congruent(a, 0, b, b, p);
    }
}

} // verus!
