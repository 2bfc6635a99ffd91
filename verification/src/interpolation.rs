//! Lagrange interpolation at zero over a field of remainders.
//!
//! Through `n` points with different `x` there is one polynomial of `n`
//! coefficients, and its constant term is
//!
//! ```text
//!   sum over i of  y_i * product over j != i of  x_j / (x_j - x_i)
//! ```
//!
//! The executable half computes that sum modulo `p`. The ghost half proves
//! that, for a prime `p`, it is the constant term of every polynomial of at
//! most `n` coefficients that passes through the points.

use crate::bignum::{big_one, big_rem, big_zero, value_of};
use crate::error::SharingError;
use crate::field::{mod_add, mod_inverse, mod_mul, mod_sub};
use crate::number_theory::{
    has_inverse, inverse_of, is_inverse, is_prime, lemma_add_congruent,
    lemma_inverse_of_is_inverse, lemma_mul_congruent, lemma_prime_divides_product,
    lemma_prime_inverse_exists, lemma_sub_congruent,
};
use crate::polynomial::{
    lemma_eval_at_zero, lemma_poly_add, lemma_poly_scale, lemma_poly_times_linear,
    lemma_roots_force_zero, poly_add, poly_eval, poly_scale, poly_times_linear,
};
use crate::share::{xs_of, ys_of, Share};
use num_bigint::BigUint;
use vstd::arithmetic::div_mod::{lemma_mod_equivalence, lemma_mod_twice, lemma_small_mod};
use vstd::arithmetic::mul::{lemma_mul_is_associative, lemma_mul_is_commutative};
use vstd::prelude::*;

verus! {

/// The product of the entries of `v`, leaving out the one at `skip`.
pub open spec fn product_skipping(v: Seq<int>, skip: int) -> int
    decreases v.len(),
{
    if v.len() == 0 {
        1
    } else if v.len() - 1 == skip {
        product_skipping(v.drop_last(), skip)
    } else {
        product_skipping(v.drop_last(), skip) * v.last()
    }
}

/// The entries of `xs`, each less `c`.
pub open spec fn offsets(xs: Seq<int>, c: int) -> Seq<int> {
    Seq::new(xs.len(), |j: int| xs[j] - c)
}

/// The numerator of the `i`-th basis polynomial at zero: the product of
/// the other `x`.
pub open spec fn basis_numerator(xs: Seq<int>, i: int) -> int {
    product_skipping(xs, i)
}

/// The denominator of the `i`-th basis polynomial: the product of the
/// differences `x_j - x_i` over the other `j`.
pub open spec fn basis_denominator(xs: Seq<int>, i: int) -> int {
    product_skipping(offsets(xs, xs[i]), i)
}

/// The sum of the first `k` terms `y_i * numerator_i / denominator_i`, the
/// division done by the inverse modulo `p`.
pub open spec fn lagrange_sum(xs: Seq<int>, ys: Seq<int>, k: int, p: int) -> int
    decreases k,
{
    if k <= 0 {
        0
    } else {
        lagrange_sum(xs, ys, k - 1, p) + ys[k - 1] * (basis_numerator(xs, k - 1) * inverse_of(
            basis_denominator(xs, k - 1) % p,
            p,
        ))
    }
}

/// Every denominator has an inverse modulo `p`, so the interpolation
/// through these `x` can be computed.
pub open spec fn interpolable(xs: Seq<int>, p: int) -> bool {
    forall|i: int| 0 <= i < xs.len() ==> has_inverse(#[trigger] basis_denominator(xs, i) % p, p)
}

/// The value at zero, modulo `p`, of the interpolation through the points
/// `(xs[i], ys[i])`.
pub open spec fn interpolation_at_zero(xs: Seq<int>, ys: Seq<int>, p: int) -> int {
    lagrange_sum(xs, ys, xs.len() as int, p) % p
}

/// No two entries of `xs` leave the same remainder modulo `p`.
pub open spec fn distinct_modulo(xs: Seq<int>, p: int) -> bool {
    forall|i: int, j: int|
        0 <= i < xs.len() && 0 <= j < xs.len() && i != j ==> (#[trigger] xs[i] - #[trigger] xs[j])
            % p != 0
}

/// Numerator and denominator of the `i`-th basis polynomial at zero, both
/// reduced modulo `modulus`. Each difference is taken as a remainder in
/// `[0, modulus)` before it is multiplied in.
fn basis_terms(shares: &[Share], i: usize, modulus: &BigUint) -> (r: (BigUint, BigUint))
    requires
        i < shares.len(),
        value_of(*modulus) > 0,
    ensures
        value_of(r.0) == basis_numerator(xs_of(shares@), i as int) % (value_of(*modulus) as int),
        value_of(r.1) == basis_denominator(xs_of(shares@), i as int) % (value_of(
            *modulus,
        ) as int),
{
    let ghost p = value_of(*modulus) as int;
    let ghost xs = xs_of(shares@);
    let ghost ds = offsets(xs, xs[i as int]);
    let one = big_one();
    let mut numerator = big_rem(&one, modulus);
    let mut denominator = big_rem(&one, modulus);
    let mut j: usize = 0;
    proof {
        assert(xs.take(0) =~= Seq::<int>::empty());
    }
    while j < shares.len()
        invariant
            j <= shares.len(),
            i < shares.len(),
            p == value_of(*modulus),
            p > 0,
            xs == xs_of(shares@),
            ds == offsets(xs, xs[i as int]),
            value_of(numerator) == product_skipping(xs.take(j as int), i as int) % p,
            value_of(denominator) == product_skipping(ds.take(j as int), i as int) % p,
        decreases shares.len() - j,
    {
        let ghost num_before = product_skipping(xs.take(j as int), i as int);
        let ghost den_before = product_skipping(ds.take(j as int), i as int);
        proof {
            assert(xs.take(j as int + 1).drop_last() =~= xs.take(j as int));
            assert(ds.take(j as int + 1).drop_last() =~= ds.take(j as int));
        }
        if j != i {
            numerator = mod_mul(&numerator, &shares[j].x, modulus);
            let difference = mod_sub(&shares[j].x, &shares[i].x, modulus);
            denominator = mod_mul(&denominator, &difference, modulus);
            proof {
                lemma_mod_twice(num_before, p);
                lemma_mod_twice(den_before, p);
                lemma_mod_twice(ds[j as int], p);
                lemma_mul_congruent(num_before % p, num_before, xs[j as int], xs[j as int], p);
                lemma_mul_congruent(
                    den_before % p,
                    den_before,
                    value_of(difference) as int,
                    ds[j as int],
                    p,
                );
            }
        }
        j += 1;
    }
    proof {
        assert(xs.take(shares.len() as int) =~= xs);
        assert(ds.take(shares.len() as int) =~= ds);
    }
    (numerator, denominator)
}

/// The value at zero of the interpolation through all of `shares`, modulo
/// `modulus`.
///
/// Where a denominator has no inverse, as with two shares of the same `x`,
/// the result is `NonInvertibleDenominator`.
pub fn interpolate_at_zero(shares: &[Share], modulus: &BigUint) -> (r: Result<
    BigUint,
    SharingError,
>)
    requires
        value_of(*modulus) > 0,
    ensures
        r is Ok <==> interpolable(xs_of(shares@), value_of(*modulus) as int),
        r matches Ok(v) ==> value_of(v) == interpolation_at_zero(
            xs_of(shares@),
            ys_of(shares@),
            value_of(*modulus) as int,
        ),
        r matches Err(e) ==> e == SharingError::NonInvertibleDenominator,
{
    let ghost p = value_of(*modulus) as int;
    let ghost xs = xs_of(shares@);
    let ghost ys = ys_of(shares@);
    let zero = big_zero();
    let mut secret = big_rem(&zero, modulus);
    let mut i: usize = 0;
    while i < shares.len()
        invariant
            i <= shares.len(),
            p == value_of(*modulus),
            p > 0,
            xs == xs_of(shares@),
            ys == ys_of(shares@),
            value_of(secret) == lagrange_sum(xs, ys, i as int, p) % p,
            forall|k: int| 0 <= k < i ==> has_inverse(#[trigger] basis_denominator(xs, k) % p, p),
        decreases shares.len() - i,
    {
        let (numerator, denominator) = basis_terms(shares, i, modulus);
        match mod_inverse(&denominator, modulus) {
            Err(_) => {
                assert(!has_inverse(basis_denominator(xs, i as int) % p, p));
                return Err(SharingError::NonInvertibleDenominator);
            },
            Ok(inverse) => {
                let weight = mod_mul(&numerator, &inverse, modulus);
                let term = mod_mul(&shares[i].y, &weight, modulus);
                let ghost sum_before = lagrange_sum(xs, ys, i as int, p);
                secret = mod_add(&secret, &term, modulus);
                proof {
                    let num = basis_numerator(xs, i as int);
                    let inv = value_of(inverse) as int;
                    lemma_inverse_of_is_inverse(basis_denominator(xs, i as int) % p, inv, p);
                    lemma_mod_twice(num, p);
                    lemma_mod_twice(num * inv, p);
                    lemma_mod_twice(sum_before, p);
                    lemma_mul_congruent(num % p, num, inv, inv, p);
                    lemma_mul_congruent(
                        ys[i as int],
                        ys[i as int],
                        value_of(weight) as int,
                        num * inv,
                        p,
                    );
                    lemma_mod_twice(ys[i as int] * (num * inv), p);
                    lemma_add_congruent(
                        sum_before % p,
                        sum_before,
                        value_of(term) as int,
                        ys[i as int] * (num * inv),
                        p,
                    );
                }
            },
        }
        i += 1;
    }
    Ok(secret)
}

/// A product with a zero factor, other than the one left out, is zero.
proof fn lemma_product_with_zero(v: Seq<int>, skip: int, k: int)
    requires
        0 <= k < v.len(),
        k != skip,
        v[k] == 0,
    ensures
        product_skipping(v, skip) == 0,
    decreases v.len(),
{
    let rest = v.drop_last();
    if k == v.len() - 1 {
        assert(product_skipping(rest, skip) * 0 == 0);
    } else {
        lemma_product_with_zero(rest, skip, k);
    }
}

/// A prime that divides none of the factors, other than the one left out,
/// does not divide the product.
proof fn lemma_product_nonzero(v: Seq<int>, skip: int, p: int)
    requires
        is_prime(p),
        forall|j: int| 0 <= j < v.len() && j != skip ==> #[trigger] v[j] % p != 0,
    ensures
        product_skipping(v, skip) % p != 0,
    decreases v.len(),
{
    if v.len() == 0 {
        lemma_small_mod(1, p as nat);
    } else {
        let rest = v.drop_last();
        lemma_product_nonzero(rest, skip, p);
        if v.len() - 1 != skip && product_skipping(v, skip) % p == 0 {
            assert(v[v.len() - 1] % p != 0);
            lemma_prime_divides_product(product_skipping(rest, skip), v.last(), p);
        }
    }
}

/// Modulo a prime, `x` values that differ pairwise can be interpolated.
pub proof fn lemma_distinct_is_interpolable(xs: Seq<int>, p: int)
    requires
        is_prime(p),
        distinct_modulo(xs, p),
    ensures
        interpolable(xs, p),
{
    assert forall|i: int| 0 <= i < xs.len() implies has_inverse(
        #[trigger] basis_denominator(xs, i) % p,
        p,
    ) by {
        let ds = offsets(xs, xs[i]);
        lemma_product_nonzero(ds, i, p);
        lemma_mod_twice(basis_denominator(xs, i), p);
        lemma_prime_inverse_exists(basis_denominator(xs, i) % p, p);
    }
}

/// The coefficients of the product of `x_j - z` over the entries of `v`,
/// leaving out the one at `skip`.
spec fn basis_poly(v: Seq<int>, skip: int) -> Seq<int>
    decreases v.len(),
{
    if v.len() == 0 {
        seq![1int]
    } else if v.len() - 1 == skip {
        basis_poly(v.drop_last(), skip)
    } else {
        poly_times_linear(basis_poly(v.drop_last(), skip), v.last())
    }
}

/// `basis_poly` has at most one coefficient more than `v` has entries, one
/// less where an entry is left out, and takes the product of the
/// differences as its value.
proof fn lemma_basis_poly(v: Seq<int>, skip: int, z: int)
    ensures
        basis_poly(v, skip).len() == (if 0 <= skip < v.len() {
            v.len()
        } else {
            v.len() + 1
        }),
        poly_eval(basis_poly(v, skip), z) == product_skipping(offsets(v, z), skip),
    decreases v.len(),
{
    if v.len() == 0 {
        let unit = seq![1int];
        assert(unit.drop_first() =~= Seq::<int>::empty());
        assert(poly_eval(unit, z) == unit[0] + z * poly_eval(unit.drop_first(), z));
        assert(z * 0 == 0);
    } else {
        let rest = v.drop_last();
        lemma_basis_poly(rest, skip, z);
        assert(offsets(v, z).drop_last() =~= offsets(rest, z));
        if v.len() - 1 != skip {
            lemma_poly_times_linear(basis_poly(rest, skip), v.last(), z);
            lemma_mul_is_commutative(v.last() - z, poly_eval(basis_poly(rest, skip), z));
        }
    }
}

/// The coefficients of the sum, over `i` below `k`, of `ws[i]` times the
/// `i`-th basis polynomial.
spec fn combination_poly(xs: Seq<int>, ws: Seq<int>, k: int) -> Seq<int>
    decreases k,
{
    if k <= 0 {
        Seq::<int>::empty()
    } else {
        poly_add(combination_poly(xs, ws, k - 1), poly_scale(basis_poly(xs, k - 1), ws[k - 1]))
    }
}

/// The sum, over `i` below `k`, of `ws[i]` times the product of the
/// differences `x_j - z` over the `j` other than `i`.
spec fn combination_value(xs: Seq<int>, ws: Seq<int>, k: int, z: int) -> int
    decreases k,
{
    if k <= 0 {
        0
    } else {
        combination_value(xs, ws, k - 1, z) + ws[k - 1] * product_skipping(offsets(xs, z), k - 1)
    }
}

/// `combination_poly` has no more coefficients than there are `x`, and
/// takes `combination_value` as its value.
proof fn lemma_combination_poly(xs: Seq<int>, ws: Seq<int>, k: int, z: int)
    requires
        k <= xs.len(),
    ensures
        combination_poly(xs, ws, k).len() <= xs.len(),
        poly_eval(combination_poly(xs, ws, k), z) == combination_value(xs, ws, k, z),
    decreases k,
{
    if k > 0 {
        lemma_combination_poly(xs, ws, k - 1, z);
        lemma_basis_poly(xs, k - 1, z);
        lemma_poly_scale(basis_poly(xs, k - 1), ws[k - 1], z);
        lemma_poly_add(
            combination_poly(xs, ws, k - 1),
            poly_scale(basis_poly(xs, k - 1), ws[k - 1]),
            z,
        );
    }
}

/// At the `m`-th of the `x`, all terms of the combination but the `m`-th
/// vanish.
proof fn lemma_combination_at_node(xs: Seq<int>, ws: Seq<int>, k: int, m: int)
    requires
        0 <= m < xs.len(),
        k <= xs.len(),
    ensures
        combination_value(xs, ws, k, xs[m]) == (if m < k {
            ws[m] * basis_denominator(xs, m)
        } else {
            0
        }),
    decreases k,
{
    if k > 0 {
        lemma_combination_at_node(xs, ws, k - 1, m);
        if k - 1 != m {
            lemma_product_with_zero(offsets(xs, xs[m]), k - 1, m);
        }
    }
}

/// At zero, the combination with the weights `y_i / denominator_i` is the
/// Lagrange sum.
proof fn lemma_combination_at_zero(xs: Seq<int>, ys: Seq<int>, ws: Seq<int>, k: int, p: int)
    requires
        k <= xs.len(),
        forall|i: int|
            0 <= i < xs.len() ==> #[trigger] ws[i] == ys[i] * inverse_of(
                basis_denominator(xs, i) % p,
                p,
            ),
    ensures
        combination_value(xs, ws, k, 0) == lagrange_sum(xs, ys, k, p),
    decreases k,
{
    if k > 0 {
        lemma_combination_at_zero(xs, ys, ws, k - 1, p);
        let inv = inverse_of(basis_denominator(xs, k - 1) % p, p);
        let num = basis_numerator(xs, k - 1);
        assert(offsets(xs, 0) =~= xs);
        assert((ys[k - 1] * inv) * num == ys[k - 1] * (num * inv)) by {
            lemma_mul_is_associative(ys[k - 1], inv, num);
        }
    }
}

/// Interpolation recovers the constant term.
///
/// Let `p` be prime, the `xs` different modulo `p`, and `c` a polynomial of
/// no more coefficients than there are points, whose value at each
/// `xs[i]` is `ys[i]` modulo `p`. Then the interpolation through the
/// points can be computed, and at zero it gives `c[0]` modulo `p`.
pub proof fn lemma_interpolation_recovers_constant(
    c: Seq<int>,
    xs: Seq<int>,
    ys: Seq<int>,
    p: int,
)
    requires
        is_prime(p),
        1 <= c.len() <= xs.len(),
        xs.len() == ys.len(),
        distinct_modulo(xs, p),
        forall|i: int| 0 <= i < xs.len() ==> #[trigger] ys[i] % p == poly_eval(c, xs[i]) % p,
    ensures
        interpolable(xs, p),
        interpolation_at_zero(xs, ys, p) == c[0] % p,
{
    let n = xs.len() as int;
    lemma_distinct_is_interpolable(xs, p);
    let ws = Seq::new(
        xs.len(),
        |i: int| ys[i] * inverse_of(basis_denominator(xs, i) % p, p),
    );
    let combination = combination_poly(xs, ws, n);
    let difference = poly_add(combination, poly_scale(c, -1));
    // The difference of the interpolation and `c` has a root at every x.
    assert forall|m: int| 0 <= m < xs.len() implies poly_eval(difference, #[trigger] xs[m]) % p
        == 0 by {
        let x = xs[m];
        let den = basis_denominator(xs, m);
        let inv = inverse_of(den % p, p);
        lemma_combination_poly(xs, ws, n, x);
        lemma_combination_at_node(xs, ws, n, m);
        lemma_poly_scale(c, -1, x);
        lemma_poly_add(combination, poly_scale(c, -1), x);
        assert(poly_eval(difference, x) == ws[m] * den - poly_eval(c, x));
        // inv * den leaves 1, so ws[m] * den leaves what ys[m] leaves
        assert(is_inverse(den % p, inv, p));
        lemma_mod_twice(den, p);
        lemma_mul_congruent(inv, inv, den % p, den, p);
        lemma_small_mod(1, p as nat);
        lemma_mul_congruent(ys[m], ys[m], inv * den, 1, p);
        assert((ys[m] * inv) * den == ys[m] * (inv * den)) by {
            lemma_mul_is_associative(ys[m], inv, den);
        }
        assert(ys[m] * 1 == ys[m]);
        lemma_sub_congruent(ws[m] * den, ys[m], poly_eval(c, x), poly_eval(c, x), p);
        lemma_sub_congruent(ys[m], poly_eval(c, x), poly_eval(c, x), poly_eval(c, x), p);
        lemma_small_mod(0, p as nat);
    }
    lemma_combination_poly(xs, ws, n, 0);
    lemma_poly_scale(c, -1, 0);
    lemma_poly_add(combination, poly_scale(c, -1), 0);
    lemma_roots_force_zero(difference, xs, p);
    // So its constant term is a multiple of p; and that is the Lagrange sum
    // less c[0].
    lemma_eval_at_zero(difference);
    lemma_combination_at_zero(xs, ys, ws, n, p);
    assert(poly_eval(difference, 0) % p == 0);
    lemma_mod_equivalence(lagrange_sum(xs, ys, n, p), c[0], p);
}

/// A product with a factor that `p` divides, other than the one left out,
/// is divided by `p`.
proof fn lemma_product_with_multiple(v: Seq<int>, skip: int, k: int, p: int)
    requires
        p > 0,
        0 <= k < v.len(),
        k != skip,
        v[k] % p == 0,
    ensures
        product_skipping(v, skip) % p == 0,
    decreases v.len(),
{
    let rest = v.drop_last();
    if k == v.len() - 1 {
        lemma_mul_congruent(product_skipping(rest, skip), product_skipping(rest, skip), v[k], 0, p);
        assert(product_skipping(rest, skip) * 0 == 0);
    } else {
        lemma_product_with_multiple(rest, skip, k, p);
        if v.len() - 1 != skip {
            lemma_mul_congruent(product_skipping(rest, skip), 0, v.last(), v.last(), p);
            assert(0 * v.last() == 0);
        }
    }
}

/// Two `x` that leave the same remainder modulo `p` cannot be interpolated
/// through, whatever `p` is.
pub proof fn lemma_repeated_x_not_interpolable(xs: Seq<int>, p: int, i: int, j: int)
    requires
        p > 0,
        0 <= i < xs.len(),
        0 <= j < xs.len(),
        i != j,
        (xs[i] - xs[j]) % p == 0,
    ensures
        !interpolable(xs, p),
{
    // the j-th denominator has the factor xs[i] - xs[j]
    lemma_product_with_multiple(offsets(xs, xs[j]), j, i, p);
    assert(basis_denominator(xs, j) % p == 0);
}

/// Modulo a prime, the `x` can be interpolated through exactly when no two
/// of them leave the same remainder.
pub proof fn lemma_interpolable_iff_distinct(xs: Seq<int>, p: int)
    requires
        is_prime(p),
    ensures
        interpolable(xs, p) <==> distinct_modulo(xs, p),
{
    if distinct_modulo(xs, p) {
        lemma_distinct_is_interpolable(xs, p);
    } else {
        let (i, j) = choose|i: int, j: int|
            0 <= i < xs.len() && 0 <= j < xs.len() && i != j && !((#[trigger] xs[i]
                - #[trigger] xs[j]) % p != 0);
        lemma_repeated_x_not_interpolable(xs, p, i, j);
    }
}

} // verus!
