use num_bigint::BigUint;
use rand::rngs::StdRng;
use rand::SeedableRng;
use secret_sharing::error::SharingError;
use secret_sharing::field::{mod_add, mod_inverse, mod_mul, mod_pow, mod_sub};
use secret_sharing::polynomial::{evaluate, generate};

fn n(v: u64) -> BigUint {
    BigUint::from(v)
}

fn ns(vs: &[u64]) -> Vec<BigUint> {
    vs.iter().map(|v| n(*v)).collect()
}

#[test]
fn mod_mul_reduces_the_product() {
    assert_eq!(mod_mul(&n(6), &n(7), &n(10)), n(2));
    assert_eq!(mod_mul(&n(0), &n(7), &n(10)), n(0));
    assert_eq!(mod_mul(&n(6), &n(7), &n(1)), n(0));
    assert_eq!(mod_mul(&n(6), &n(7), &n(100)), n(42));
}

#[test]
fn mod_add_reduces_the_sum() {
    assert_eq!(mod_add(&n(6), &n(7), &n(10)), n(3));
    assert_eq!(mod_add(&n(6), &n(7), &n(13)), n(0));
    assert_eq!(mod_add(&n(6), &n(7), &n(100)), n(13));
}

#[test]
fn mod_sub_never_goes_below_zero() {
    assert_eq!(mod_sub(&n(3), &n(5), &n(7)), n(5));
    assert_eq!(mod_sub(&n(5), &n(3), &n(7)), n(2));
    assert_eq!(mod_sub(&n(5), &n(5), &n(7)), n(0));
    assert_eq!(mod_sub(&n(1), &n(20), &n(7)), n(2));
    assert_eq!(mod_sub(&n(20), &n(1), &n(7)), n(5));
    assert_eq!(mod_sub(&n(0), &n(1), &n(1)), n(0));
}

#[test]
fn mod_pow_known_values() {
    assert_eq!(mod_pow(&n(4), &n(13), &n(497)), n(445));
    assert_eq!(mod_pow(&n(2), &n(10), &n(1000)), n(24));
    assert_eq!(mod_pow(&n(2), &n(11), &n(23)), n(1));
    assert_eq!(mod_pow(&n(7), &n(1), &n(5)), n(2));
    assert_eq!(mod_pow(&n(7), &n(2), &n(100)), n(49));
}

#[test]
fn mod_pow_edges() {
    assert_eq!(mod_pow(&n(5), &n(0), &n(7)), n(1));
    assert_eq!(mod_pow(&n(0), &n(0), &n(7)), n(1));
    assert_eq!(mod_pow(&n(0), &n(5), &n(7)), n(0));
    assert_eq!(mod_pow(&n(5), &n(0), &n(1)), n(0));
    assert_eq!(mod_pow(&n(5), &n(3), &n(1)), n(0));
    assert_eq!(mod_pow(&n(14), &n(3), &n(7)), n(0));
}

#[test]
fn mod_pow_agrees_with_the_big_number_library() {
    let modulus = (BigUint::from(1u32) << 127u32) - BigUint::from(1u32);
    let base = n(123456789);
    let exponent = &modulus - n(2);
    let expected = base.modpow(&exponent, &modulus);
    assert_eq!(mod_pow(&base, &exponent, &modulus), expected);
    // Fermat: the power is the inverse
    assert_eq!(mod_inverse(&base, &modulus), Ok(expected));
}

#[test]
fn mod_inverse_known_values() {
    assert_eq!(mod_inverse(&n(3), &n(11)), Ok(n(4)));
    assert_eq!(mod_inverse(&n(14), &n(11)), Ok(n(4)));
    assert_eq!(mod_inverse(&n(1), &n(11)), Ok(n(1)));
    assert_eq!(mod_inverse(&n(10), &n(11)), Ok(n(10)));
    assert_eq!(mod_inverse(&n(7), &n(15)), Ok(n(13)));
    assert_eq!(mod_inverse(&n(1), &n(2)), Ok(n(1)));
}

#[test]
fn mod_inverse_without_inverse() {
    assert_eq!(mod_inverse(&n(0), &n(11)), Err(SharingError::NotInvertible));
    assert_eq!(mod_inverse(&n(22), &n(11)), Err(SharingError::NotInvertible));
    assert_eq!(mod_inverse(&n(6), &n(9)), Err(SharingError::NotInvertible));
    assert_eq!(mod_inverse(&n(3), &n(1)), Err(SharingError::NotInvertible));
    assert_eq!(mod_inverse(&n(3), &n(0)), Err(SharingError::NotInvertible));
    assert_eq!(mod_inverse(&n(0), &n(0)), Err(SharingError::NotInvertible));
}

#[test]
fn mod_inverse_of_everything_modulo_a_prime() {
    let p = n(101);
    for a in 1..101u64 {
        let inverse = mod_inverse(&n(a), &p).unwrap();
        assert!(inverse < p);
        assert_eq!((n(a) * inverse) % &p, n(1));
    }
}

#[test]
fn evaluate_known_values() {
    let coefficients = ns(&[3, 2, 5]);
    assert_eq!(evaluate(&coefficients, &n(0), &n(17)), n(3));
    assert_eq!(evaluate(&coefficients, &n(1), &n(17)), n(10));
    assert_eq!(evaluate(&coefficients, &n(4), &n(17)), n(6));
    assert_eq!(evaluate(&coefficients, &n(4), &n(1000)), n(91));
    assert_eq!(evaluate(&coefficients, &n(21), &n(17)), n(6));
    assert_eq!(evaluate(&[], &n(4), &n(17)), n(0));
    assert_eq!(evaluate(&ns(&[20]), &n(4), &n(17)), n(3));
    assert_eq!(evaluate(&coefficients, &n(4), &n(1)), n(0));
}

#[test]
fn generate_gives_threshold_coefficients_below_the_bound() {
    let mut rng = StdRng::seed_from_u64(1);
    let bound = n(1000);
    let mut seen_other_than_secret = false;
    for _ in 0..50 {
        let coefficients = generate(&n(999), 4, &bound, &mut rng).unwrap();
        assert_eq!(coefficients.len(), 4);
        assert_eq!(coefficients[0], n(999));
        for c in &coefficients {
            assert!(*c < bound);
        }
        if coefficients[1..].iter().any(|c| *c != n(999)) {
            seen_other_than_secret = true;
        }
    }
    assert!(seen_other_than_secret);
    let only_secret = generate(&n(5), 1, &bound, &mut rng).unwrap();
    assert_eq!(only_secret, ns(&[5]));
}

#[test]
fn generate_rejects_bad_input() {
    let mut rng = StdRng::seed_from_u64(1);
    assert_eq!(generate(&n(5), 0, &n(10), &mut rng), Err(SharingError::InvalidParameters));
    assert_eq!(generate(&n(10), 3, &n(10), &mut rng), Err(SharingError::InvalidParameters));
    assert_eq!(generate(&n(11), 3, &n(10), &mut rng), Err(SharingError::InvalidParameters));
    assert_eq!(generate(&n(0), 3, &n(0), &mut rng), Err(SharingError::InvalidParameters));
    assert_eq!(generate(&n(0), 3, &n(1), &mut rng), Ok(ns(&[0, 0, 0])));
}

#[test]
fn generate_with_the_same_seed_repeats() {
    let mut first = StdRng::seed_from_u64(77);
    let mut second = StdRng::seed_from_u64(77);
    let bound = (BigUint::from(1u32) << 127u32) - BigUint::from(1u32);
    let a = generate(&n(5), 6, &bound, &mut first).unwrap();
    let b = generate(&n(5), 6, &bound, &mut second).unwrap();
    assert_eq!(a, b);
    let c = generate(&n(5), 6, &bound, &mut first).unwrap();
    assert_ne!(a, c);
}
