//! Polynomials over a field of remainders: drawing one with a given
//! constant term, and evaluating one at a point.
//!
//! A polynomial is the sequence of its coefficients, lowest power first.
//! The ghost half of the module proves what the interpolation needs: a
//! polynomial of `n` coefficients with `n` roots that differ modulo a prime
//! has only coefficients that the prime divides.

use crate::bignum::{big_lt, big_one, big_rem, big_zero, value_of, values_of};
use crate::error::SharingError;
use crate::field::{mod_add, mod_mul};
use crate::number_theory::{
    is_prime, lemma_add_congruent, lemma_divides_combination, lemma_mul_congruent,
    lemma_prime_divides_product,
};
use crate::random::random_below;
use num_bigint::BigUint;
use rand::rngs::StdRng;
use vstd::arithmetic::div_mod::{lemma_mod_twice, lemma_small_mod, lemma_sub_mod_noop};
use vstd::arithmetic::mul::{
    lemma_mul_is_associative, lemma_mul_is_commutative, lemma_mul_is_distributive_add,
    lemma_mul_is_distributive_sub,
};
use vstd::arithmetic::power::{lemma_pow0, lemma_pow_adds, lemma_pow1, pow};
use vstd::prelude::*;

verus! {

/// The value at `x` of the polynomial with coefficients `c`:
/// `c[0] + c[1] * x + c[2] * x^2 + ...`.
pub open spec fn poly_eval(c: Seq<int>, x: int) -> int
    decreases c.len(),
{
    if c.len() == 0 {
        0
    } else {
        c[0] + x * poly_eval(c.drop_first(), x)
    }
}

/// `c` is a polynomial that shares `secret` with the given threshold:
/// `threshold` coefficients below `bound`, the first of them the secret.
pub open spec fn is_sharing_polynomial(
    c: Seq<int>,
    secret: int,
    threshold: int,
    bound: int,
) -> bool {
    &&& threshold >= 1
    &&& c.len() == threshold
    &&& c[0] == secret
    &&& forall|i: int| 0 <= i < c.len() ==> 0 <= #[trigger] c[i] < bound
}

/// One more coefficient adds one more power of `x`.
pub proof fn lemma_eval_push(c: Seq<int>, a: int, x: int)
    ensures
        poly_eval(c.push(a), x) == poly_eval(c, x) + a * pow(x, c.len()),
    decreases c.len(),
{
    if c.len() == 0 {
        assert(poly_eval(c.push(a).drop_first(), x) == 0);
        lemma_pow0(x);
    } else {
        let rest = c.drop_first();
        assert(c.push(a).drop_first() =~= rest.push(a));
        lemma_eval_push(rest, a, x);
        let high = a * pow(x, rest.len());
        assert(x * (poly_eval(rest, x) + high) == x * poly_eval(rest, x) + x * high) by {
            lemma_mul_is_distributive_add(x, poly_eval(rest, x), high);
        }
        assert(x * high == a * pow(x, c.len())) by {
            lemma_pow_adds(x, 1, rest.len());
            lemma_pow1(x);
            lemma_mul_is_associative(x, a, pow(x, rest.len()));
            lemma_mul_is_associative(a, x, pow(x, rest.len()));
        }
    }
}

/// At zero a polynomial takes the value of its constant term.
pub proof fn lemma_eval_at_zero(c: Seq<int>)
    ensures
        poly_eval(c, 0) == (if c.len() == 0 {
            0
        } else {
            c[0]
        }),
{
}

/// `threshold` coefficients for sharing `secret`: the secret itself, then
/// `threshold - 1` numbers drawn from `rng`, each below `field_bound`.
///
/// A zero threshold, or a secret that does not lie below the bound, is
/// `InvalidParameters`.
pub fn generate(
    secret: &BigUint,
    threshold: usize,
    field_bound: &BigUint,
    rng: &mut StdRng,
) -> (r: Result<Vec<BigUint>, SharingError>)
    ensures
        r is Ok <==> threshold >= 1 && value_of(*secret) < value_of(*field_bound),
        r matches Ok(c) ==> is_sharing_polynomial(
            values_of(c@),
            value_of(*secret) as int,
            threshold as int,
            value_of(*field_bound) as int,
        ),
        r matches Err(e) ==> e == SharingError::InvalidParameters,
{
    if threshold == 0 || !big_lt(secret, field_bound) {
        return Err(SharingError::InvalidParameters);
    }
    let mut coefficients: Vec<BigUint> = Vec::new();
    coefficients.push(secret.clone());
    let mut i: usize = 1;
    while i < threshold
        invariant
            1 <= i <= threshold,
            coefficients.len() == i,
            value_of(*field_bound) > 0,
            value_of(coefficients[0]) == value_of(*secret),
            forall|k: int|
                0 <= k < coefficients.len() ==> value_of(#[trigger] coefficients[k]) < value_of(
                    *field_bound,
                ),
        decreases threshold - i,
    {
        let drawn = random_below(rng, field_bound);
        coefficients.push(drawn);
        i += 1;
    }
    Ok(coefficients)
}

/// The value at `x` of the polynomial with the given coefficients, reduced
/// modulo `modulus`. The powers of `x` are carried along from term to term,
/// so each coefficient costs two multiplications.
pub fn evaluate(coefficients: &[BigUint], x: &BigUint, modulus: &BigUint) -> (y: BigUint)
    requires
        value_of(*modulus) > 0,
    ensures
        value_of(y) == poly_eval(values_of(coefficients@), value_of(*x) as int) % (value_of(
            *modulus,
        ) as int),
{
    let ghost m = value_of(*modulus) as int;
    let ghost xv = value_of(*x) as int;
    let ghost c = values_of(coefficients@);
    let one = big_one();
    let mut result = big_zero();
    let mut x_power = big_rem(&one, modulus);
    let mut i: usize = 0;
    proof {
        lemma_pow0(xv);
        lemma_small_mod(0, m as nat);
    }
    while i < coefficients.len()
        invariant
            i <= coefficients.len(),
            m == value_of(*modulus),
            m > 0,
            xv == value_of(*x),
            c == values_of(coefficients@),
            value_of(result) == poly_eval(c.take(i as int), xv) % m,
            value_of(x_power) == pow(xv, i as nat) % m,
        decreases coefficients.len() - i,
    {
        let ghost so_far = poly_eval(c.take(i as int), xv);
        let ghost power = pow(xv, i as nat);
        let term = mod_mul(&coefficients[i], &x_power, modulus);
        result = mod_add(&result, &term, modulus);
        x_power = mod_mul(&x_power, x, modulus);
        proof {
            assert(c.take(i as int + 1) =~= c.take(i as int).push(c[i as int]));
            lemma_eval_push(c.take(i as int), c[i as int], xv);
            lemma_mod_twice(power, m);
            lemma_mod_twice(so_far, m);
            lemma_mod_twice(c[i as int] * power, m);
            lemma_mul_congruent(c[i as int], c[i as int], power % m, power, m);
            lemma_add_congruent(so_far % m, so_far, value_of(term) as int, c[i as int] * power, m);
            lemma_mul_congruent(power % m, power, xv, xv, m);
            assert(power * xv == pow(xv, (i + 1) as nat)) by {
                lemma_pow_adds(xv, i as nat, 1);
                lemma_pow1(xv);
            }
        }
        i += 1;
    }
    proof {
        assert(c.take(coefficients.len() as int) =~= c);
    }
    result
}

/// The polynomial `f + g`.
pub open spec fn poly_add(f: Seq<int>, g: Seq<int>) -> Seq<int>
    decreases f.len(),
{
    if f.len() == 0 {
        g
    } else if g.len() == 0 {
        f
    } else {
        seq![f[0] + g[0]] + poly_add(f.drop_first(), g.drop_first())
    }
}

/// The polynomial `k * f`.
pub open spec fn poly_scale(f: Seq<int>, k: int) -> Seq<int> {
    Seq::new(f.len(), |i: int| k * f[i])
}

/// The polynomial `(a - z) * f(z)`.
pub open spec fn poly_times_linear(f: Seq<int>, a: int) -> Seq<int> {
    poly_add(poly_scale(f, a), seq![0int] + poly_scale(f, -1))
}

/// The sum of two polynomials has the length of the longer and takes the
/// sum of their values.
pub proof fn lemma_poly_add(f: Seq<int>, g: Seq<int>, x: int)
    ensures
        poly_add(f, g).len() == (if f.len() >= g.len() {
            f.len()
        } else {
            g.len()
        }),
        poly_eval(poly_add(f, g), x) == poly_eval(f, x) + poly_eval(g, x),
    decreases f.len(),
{
    if f.len() > 0 && g.len() > 0 {
        let sum = poly_add(f, g);
        lemma_poly_add(f.drop_first(), g.drop_first(), x);
        assert(sum.drop_first() =~= poly_add(f.drop_first(), g.drop_first()));
        lemma_mul_is_distributive_add(
            x,
            poly_eval(f.drop_first(), x),
            poly_eval(g.drop_first(), x),
        );
    }
}

/// A scaled polynomial takes the scaled value.
pub proof fn lemma_poly_scale(f: Seq<int>, k: int, x: int)
    ensures
        poly_scale(f, k).len() == f.len(),
        poly_eval(poly_scale(f, k), x) == k * poly_eval(f, x),
    decreases f.len(),
{
    if f.len() > 0 {
        let rest = f.drop_first();
        lemma_poly_scale(rest, k, x);
        assert(poly_scale(f, k).drop_first() =~= poly_scale(rest, k));
        assert(k * (f[0] + x * poly_eval(rest, x)) == k * f[0] + x * (k * poly_eval(rest, x))) by {
            lemma_mul_is_distributive_add(k, f[0], x * poly_eval(rest, x));
            lemma_mul_is_associative(k, x, poly_eval(rest, x));
            lemma_mul_is_associative(x, k, poly_eval(rest, x));
        }
    }
}

/// Multiplying by `a - z` adds one coefficient and multiplies the value at
/// `x` by `a - x`.
pub proof fn lemma_poly_times_linear(f: Seq<int>, a: int, x: int)
    ensures
        poly_times_linear(f, a).len() == f.len() + 1,
        poly_eval(poly_times_linear(f, a), x) == (a - x) * poly_eval(f, x),
{
    let shifted = seq![0int] + poly_scale(f, -1);
    lemma_poly_scale(f, a, x);
    lemma_poly_scale(f, -1, x);
    lemma_poly_add(poly_scale(f, a), shifted, x);
    assert(shifted.drop_first() =~= poly_scale(f, -1));
    let v = poly_eval(f, x);
    assert(a * v + x * (-1 * v) == (a - x) * v) by {
        lemma_mul_is_associative(x, -1, v);
        lemma_mul_is_distributive_sub(v, a, x);
        lemma_mul_is_commutative(v, a);
        lemma_mul_is_commutative(v, x);
        assert(x * -1 == -x);
        assert((-x) * v == -(x * v)) by (nonlinear_arith);
    }
}

/// The quotient of the polynomial `c` by `z - r`.
pub open spec fn poly_quotient(c: Seq<int>, r: int) -> Seq<int>
    decreases c.len(),
{
    if c.len() <= 1 {
        Seq::<int>::empty()
    } else {
        seq![poly_eval(c.drop_first(), r)] + poly_quotient(c.drop_first(), r)
    }
}

/// Division by `z - r` leaves the value at `r` as the remainder:
/// `c(x) == (x - r) * quotient(x) + c(r)`.
pub proof fn lemma_poly_division(c: Seq<int>, r: int, x: int)
    ensures
        poly_quotient(c, r).len() == (if c.len() == 0 {
            0
        } else {
            c.len() - 1
        }),
        poly_eval(c, x) == (x - r) * poly_eval(poly_quotient(c, r), x) + poly_eval(c, r),
    decreases c.len(),
{
    if c.len() == 0 {
    } else if c.len() == 1 {
        assert(c.drop_first() =~= Seq::<int>::empty());
        assert(x * 0 == 0);
        assert(r * 0 == 0);
    } else {
        let rest = c.drop_first();
        let q = poly_quotient(c, r);
        let q_rest = poly_quotient(rest, r);
        lemma_poly_division(rest, r, x);
        assert(q.drop_first() =~= q_rest);
        let vr = poly_eval(rest, r);
        let vq = poly_eval(q_rest, x);
        // rest(x) == (x - r) * vq + vr, and quotient(x) == vr + x * vq
        assert(x * poly_eval(rest, x) == (x - r) * (vr + x * vq) + r * vr) by {
            assert(x * ((x - r) * vq + vr) == (x - r) * (vr + x * vq) + r * vr)
                by (nonlinear_arith);
        }
    }
}

/// Where the prime divides the value at `r` and every coefficient of the
/// quotient by `z - r`, it divides every coefficient.
pub proof fn lemma_quotient_carries_divisibility(c: Seq<int>, r: int, p: int)
    requires
        p > 0,
        poly_eval(c, r) % p == 0,
        forall|k: int|
            0 <= k < poly_quotient(c, r).len() ==> #[trigger] poly_quotient(c, r)[k] % p == 0,
    ensures
        forall|k: int| 0 <= k < c.len() ==> #[trigger] c[k] % p == 0,
    decreases c.len(),
{
    if c.len() == 0 {
    } else if c.len() == 1 {
        assert(r * 0 == 0);
    } else {
        let rest = c.drop_first();
        let q = poly_quotient(c, r);
        let q_rest = poly_quotient(rest, r);
        lemma_poly_division(c, r, r);
        lemma_poly_division(rest, r, r);
        assert(q.drop_first() =~= q_rest);
        lemma_quotient_carries_divisibility(rest, r, p);
        // c[0] == c(r) - r * rest(r)
        assert(c[0] % p == 0) by {
            let vr = poly_eval(rest, r);
            lemma_divides_combination(p, vr, -r, poly_eval(c, r));
            assert(vr * (-r) + poly_eval(c, r) == c[0]) by (nonlinear_arith)
                requires
                    poly_eval(c, r) == c[0] + r * vr,
            ;
        }
        assert forall|k: int| 0 <= k < c.len() implies #[trigger] c[k] % p == 0 by {
            if k > 0 {
                assert(c[k] == rest[k - 1]);
            }
        }
    }
}

/// A polynomial with as many roots as coefficients, the roots all different
/// modulo the prime `p`, has only coefficients that `p` divides.
pub proof fn lemma_roots_force_zero(c: Seq<int>, roots: Seq<int>, p: int)
    requires
        is_prime(p),
        c.len() <= roots.len(),
        forall|i: int, j: int|
            0 <= i < roots.len() && 0 <= j < roots.len() && i != j ==> (#[trigger] roots[i]
                - #[trigger] roots[j]) % p != 0,
        forall|i: int| 0 <= i < roots.len() ==> poly_eval(c, #[trigger] roots[i]) % p == 0,
    ensures
        forall|k: int| 0 <= k < c.len() ==> #[trigger] c[k] % p == 0,
    decreases c.len(),
{
    if c.len() > 0 {
        let last = roots.len() - 1;
        let r = roots[last];
        let q = poly_quotient(c, r);
        let others = roots.drop_last();
        lemma_poly_division(c, r, r);
        assert forall|i: int| 0 <= i < others.len() implies poly_eval(q, #[trigger] others[i]) % p
            == 0 by {
            let x = others[i];
            lemma_poly_division(c, r, x);
            // (x - r) * q(x) == c(x) - c(r), which p divides
            lemma_sub_mod_noop(poly_eval(c, x), poly_eval(c, r), p);
            lemma_small_mod(0, p as nat);
            lemma_prime_divides_product(x - r, poly_eval(q, x), p);
        }
        lemma_roots_force_zero(q, others, p);
        lemma_quotient_carries_divisibility(c, r, p);
    }
}

} // verus!
