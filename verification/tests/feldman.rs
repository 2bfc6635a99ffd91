use num_bigint::{BigUint, ToBigUint};
use rand::rngs::StdRng;
use rand::SeedableRng;
use secret_sharing::error::SharingError;
use secret_sharing::share::Share;
use secret_sharing::verifiable_shamir::{Commitment, FeldmanVSS};

fn big(n: u64) -> BigUint {
    BigUint::from(n)
}

fn bigs(ns: &[u64]) -> Vec<BigUint> {
    ns.iter().map(|n| big(*n)).collect()
}

fn small_group(threshold: usize, total_shares: usize) -> FeldmanVSS {
    FeldmanVSS::new(big(23), big(11), big(2), threshold, total_shares).unwrap()
}

#[test]
fn test_feldman_vss() {
    // Test parameters (using small numbers for testing)
    let p = 23u32.to_biguint().unwrap(); // Prime modulus
    let q = 11u32.to_biguint().unwrap(); // Prime order
    let g = 2u32.to_biguint().unwrap(); // Generator
    let threshold = 3;
    let total_shares = 5;

    // Create VSS instance
    let vss = FeldmanVSS::new(p.clone(), q.clone(), g.clone(), threshold, total_shares).unwrap();

    // Secret to share
    let secret = 7u32.to_biguint().unwrap();

    // Split secret and generate commitments
    let (shares, commitments) = vss.split_secret(&secret).unwrap();

    // Verify all shares
    for share in &shares {
        assert!(vss.verify_share(share, &commitments));
    }

    // Reconstruct secret from threshold number of shares
    let reconstructed = vss.reconstruct_secret(&shares[0..threshold]);
    assert_eq!(reconstructed.ok(), Some(secret));

    // Try reconstruction with insufficient shares
    let reconstructed = vss.reconstruct_secret(&shares[0..threshold - 1]);
    assert_eq!(reconstructed.ok(), None);
}

#[test]
fn test_mod_inverse() {
    let p = 23u32.to_biguint().unwrap();
    let q = 11u32.to_biguint().unwrap();
    let g = 2u32.to_biguint().unwrap();
    let vss = FeldmanVSS::new(p, q.clone(), g, 3, 5).unwrap();

    // Test some known modular multiplicative inverses
    let a = 3u32.to_biguint().unwrap();
    let inv = vss.mod_inverse(&a, &q).unwrap();
    assert_eq!((a * inv) % &q, BigUint::from(1u32));
}

#[test]
fn feldman_new_keeps_its_parameters() {
    let vss = small_group(3, 5);
    assert_eq!(vss.p(), &big(23));
    assert_eq!(vss.q(), &big(11));
    assert_eq!(vss.g(), &big(2));
    assert_eq!(vss.threshold(), 3);
    assert_eq!(vss.total_shares(), 5);
}

#[test]
fn feldman_new_rejects_bad_parameters() {
    let zero_threshold = FeldmanVSS::new(big(23), big(11), big(2), 0, 5);
    assert_eq!(zero_threshold.err(), Some(SharingError::InvalidParameters));
    let threshold_above_total = FeldmanVSS::new(big(23), big(11), big(2), 6, 5);
    assert_eq!(threshold_above_total.err(), Some(SharingError::InvalidParameters));
    let small_p = FeldmanVSS::new(big(1), big(11), big(2), 3, 5);
    assert_eq!(small_p.err(), Some(SharingError::InvalidParameters));
    let small_q = FeldmanVSS::new(big(23), big(1), big(2), 3, 5);
    assert_eq!(small_q.err(), Some(SharingError::InvalidParameters));
    let zero_q = FeldmanVSS::new(big(23), big(0), big(2), 3, 5);
    assert_eq!(zero_q.err(), Some(SharingError::InvalidParameters));
    assert!(FeldmanVSS::new(big(2), big(2), big(1), 1, 1).is_ok());
}

#[test]
fn commitments_are_powers_of_the_generator() {
    let vss = small_group(3, 5);
    let commitments = vss.generate_commitments(&bigs(&[7, 3, 5]));
    // 2^7 = 128 = 5 * 23 + 13, 2^3 = 8, 2^5 = 32 = 23 + 9
    assert_eq!(commitments.elements(), &bigs(&[13, 8, 9]));
}

#[test]
fn commitments_of_no_coefficients_are_empty() {
    let vss = small_group(3, 5);
    let commitments = vss.generate_commitments(&[]);
    assert!(commitments.elements().is_empty());
}

#[test]
fn commitment_new_keeps_order() {
    let commitments = Commitment::new(bigs(&[13, 8, 9]));
    assert_eq!(commitments.elements(), &bigs(&[13, 8, 9]));
}

#[test]
fn evaluate_polynomial_reduces_modulo_q() {
    let vss = small_group(3, 5);
    let coefficients = bigs(&[7, 3, 5]);
    // 7 + 3x + 5x^2 modulo 11
    assert_eq!(vss.evaluate_polynomial(&coefficients, &big(1)), big(4));
    assert_eq!(vss.evaluate_polynomial(&coefficients, &big(2)), big(0));
    assert_eq!(vss.evaluate_polynomial(&coefficients, &big(3)), big(6));
    assert_eq!(vss.evaluate_polynomial(&coefficients, &big(0)), big(7));
}

#[test]
fn split_with_coefficients_is_exact() {
    let vss = small_group(3, 5);
    let (shares, commitments) = vss.split_with_coefficients(&bigs(&[7, 3, 5]));
    let xs: Vec<BigUint> = shares.iter().map(|s| s.x.clone()).collect();
    let ys: Vec<BigUint> = shares.iter().map(|s| s.y.clone()).collect();
    assert_eq!(xs, bigs(&[1, 2, 3, 4, 5]));
    // 15, 33, 61, 99, 147 modulo 11
    assert_eq!(ys, bigs(&[4, 0, 6, 0, 4]));
    assert_eq!(commitments.elements(), &bigs(&[13, 8, 9]));
}

#[test]
fn dealt_shares_verify() {
    let vss = small_group(3, 5);
    let (shares, commitments) = vss.split_with_coefficients(&bigs(&[7, 3, 5]));
    for share in &shares {
        assert!(vss.verify_share(share, &commitments));
    }
}

#[test]
fn verify_share_by_hand() {
    let vss = small_group(3, 5);
    let commitments = Commitment::new(bigs(&[13, 8, 9]));
    // x = 2: 13^1 * 8^2 * 9^4 = 13 * 18 * 6 = 1 modulo 23, and 2^0 = 1
    let good = Share { x: big(2), y: big(0) };
    assert!(vss.verify_share(&good, &commitments));
    // 2^11 = 1 modulo 23, so y = 11 stands for the same power
    let same_power = Share { x: big(2), y: big(11) };
    assert!(vss.verify_share(&same_power, &commitments));
    let bad = Share { x: big(2), y: big(1) };
    assert!(!vss.verify_share(&bad, &commitments));
}

#[test]
fn tampered_shares_fail() {
    let vss = small_group(3, 5);
    let q = big(11);
    let (shares, commitments) = vss.split_with_coefficients(&bigs(&[7, 3, 5]));
    for share in &shares {
        let tampered = Share { x: share.x.clone(), y: (&share.y + big(1)) % &q };
        assert!(!vss.verify_share(&tampered, &commitments));
    }
}

#[test]
fn feldman_scenario_every_mutation_fails() {
    let vss = small_group(3, 5);
    let secret = big(7);
    let (shares, commitments) = vss.split_secret(&secret).unwrap();
    assert_eq!(shares.len(), 5);
    assert_eq!(commitments.elements().len(), 3);
    for share in &shares {
        assert!(vss.verify_share(share, &commitments));
        for other in 0..11u64 {
            if big(other) != share.y {
                let mutated = Share { x: share.x.clone(), y: big(other) };
                assert!(!vss.verify_share(&mutated, &commitments));
            }
        }
    }
}

#[test]
fn commitments_of_another_split_fail_without_a_crash() {
    let vss = small_group(3, 5);
    let (shares, _) = vss.split_with_coefficients(&bigs(&[7, 3, 5]));
    let (_, others) = vss.split_with_coefficients(&bigs(&[7, 4, 5]));
    // 7 + 4x + 5x^2 differs from 7 + 3x + 5x^2 by x, which is not 0 modulo 11
    for share in &shares {
        assert!(!vss.verify_share(share, &others));
    }
    let empty = Commitment::new(Vec::new());
    // the empty product is 1 = 2^0
    assert!(vss.verify_share(&Share { x: big(1), y: big(0) }, &empty));
    assert!(!vss.verify_share(&Share { x: big(1), y: big(4) }, &empty));
}

#[test]
fn verify_share_with_unreduced_values() {
    let vss = small_group(3, 5);
    let commitments = Commitment::new(bigs(&[13 + 23, 8, 9 + 46]));
    let share = Share { x: big(2 + 11), y: big(22) };
    assert!(vss.verify_share(&share, &commitments));
}

#[test]
fn feldman_split_rejects_large_secret() {
    let vss = small_group(3, 5);
    assert_eq!(vss.split_secret(&big(11)).err(), Some(SharingError::InvalidParameters));
    assert_eq!(vss.split_secret(&big(12)).err(), Some(SharingError::InvalidParameters));
    let mut rng = StdRng::seed_from_u64(1);
    assert_eq!(
        vss.split_secret_with(&big(11), &mut rng).err(),
        Some(SharingError::InvalidParameters)
    );
    assert_eq!(
        vss.generate_coefficients(&big(11)).err(),
        Some(SharingError::InvalidParameters)
    );
    assert_eq!(
        vss.generate_coefficients_with(&big(40), &mut rng).err(),
        Some(SharingError::InvalidParameters)
    );
    assert!(vss.split_secret(&big(10)).is_ok());
}

#[test]
fn feldman_coefficients_start_with_the_secret() {
    let vss = small_group(3, 5);
    let mut rng = StdRng::seed_from_u64(7);
    for _ in 0..20 {
        let coefficients = vss.generate_coefficients_with(&big(7), &mut rng).unwrap();
        assert_eq!(coefficients.len(), 3);
        assert_eq!(coefficients[0], big(7));
        for c in &coefficients {
            assert!(*c < big(11));
        }
    }
    let coefficients = vss.generate_coefficients(&big(0)).unwrap();
    assert_eq!(coefficients.len(), 3);
    assert_eq!(coefficients[0], big(0));
}

#[test]
fn feldman_split_with_seed_is_repeatable() {
    let vss = small_group(3, 5);
    let mut first = StdRng::seed_from_u64(42);
    let mut second = StdRng::seed_from_u64(42);
    let (shares_a, commitments_a) = vss.split_secret_with(&big(7), &mut first).unwrap();
    let (shares_b, commitments_b) = vss.split_secret_with(&big(7), &mut second).unwrap();
    assert_eq!(commitments_a.elements(), commitments_b.elements());
    for (a, b) in shares_a.iter().zip(shares_b.iter()) {
        assert_eq!(a.x, b.x);
        assert_eq!(a.y, b.y);
    }
}

#[test]
fn feldman_round_trip_every_quorum() {
    let vss = small_group(3, 5);
    let mut rng = StdRng::seed_from_u64(3);
    for secret in 0..11u64 {
        let (shares, commitments) = vss.split_secret_with(&big(secret), &mut rng).unwrap();
        for a in 0..5 {
            for b in 0..5 {
                for c in 0..5 {
                    if a != b && b != c && a != c {
                        let quorum =
                            vec![shares[a].clone(), shares[b].clone(), shares[c].clone()];
                        assert_eq!(vss.reconstruct_secret(&quorum), Ok(big(secret)));
                        assert_eq!(
                            vss.reconstruct_with_verification(&quorum, &commitments),
                            Ok(big(secret))
                        );
                    }
                }
            }
        }
    }
}

#[test]
fn feldman_reconstruct_uses_the_first_threshold_shares() {
    let vss = small_group(3, 5);
    let (mut shares, _) = vss.split_with_coefficients(&bigs(&[7, 3, 5]));
    // A wrong fourth share is never looked at.
    shares[3].y = big(9);
    assert_eq!(vss.reconstruct_secret(&shares), Ok(big(7)));
}

#[test]
fn feldman_reconstruct_errors() {
    let vss = small_group(3, 5);
    let (shares, _) = vss.split_with_coefficients(&bigs(&[7, 3, 5]));
    assert_eq!(vss.reconstruct_secret(&shares[0..2]), Err(SharingError::InsufficientShares));
    assert_eq!(vss.reconstruct_secret(&[]), Err(SharingError::InsufficientShares));
    let twice = vec![shares[0].clone(), shares[1].clone(), shares[0].clone()];
    assert_eq!(vss.reconstruct_secret(&twice), Err(SharingError::NonInvertibleDenominator));
}

#[test]
fn reconstruct_with_verification_names_the_first_bad_share() {
    let vss = small_group(3, 5);
    let (shares, commitments) = vss.split_with_coefficients(&bigs(&[7, 3, 5]));
    let mut tampered = shares.clone();
    tampered[1].y = big(1);
    tampered[4].y = big(9);
    assert_eq!(
        vss.reconstruct_with_verification(&tampered, &commitments),
        Err(SharingError::ShareVerificationFailed(1))
    );
    // A bad share beyond the quorum is found too.
    let mut late = shares.clone();
    late[4].y = big(9);
    assert_eq!(
        vss.reconstruct_with_verification(&late, &commitments),
        Err(SharingError::ShareVerificationFailed(4))
    );
    assert_eq!(vss.reconstruct_secret(&late), Ok(big(7)));
}

#[test]
fn reconstruct_with_verification_checks_before_counting() {
    let vss = small_group(3, 5);
    let (shares, commitments) = vss.split_with_coefficients(&bigs(&[7, 3, 5]));
    assert_eq!(
        vss.reconstruct_with_verification(&shares[0..2], &commitments),
        Err(SharingError::InsufficientShares)
    );
    let bad = vec![Share { x: big(1), y: big(5) }];
    assert_eq!(
        vss.reconstruct_with_verification(&bad, &commitments),
        Err(SharingError::ShareVerificationFailed(0))
    );
    assert_eq!(vss.reconstruct_with_verification(&shares, &commitments), Ok(big(7)));
    let twice = vec![shares[0].clone(), shares[1].clone(), shares[0].clone()];
    assert_eq!(
        vss.reconstruct_with_verification(&twice, &commitments),
        Err(SharingError::NonInvertibleDenominator)
    );
}

#[test]
fn feldman_with_a_large_group() {
    // q = 1019 and p = 2q + 1 = 2039 are primes, and 4 = 2^2 has order q.
    let vss = FeldmanVSS::new(big(2039), big(1019), big(4), 4, 9).unwrap();
    let mut rng = StdRng::seed_from_u64(11);
    let secret = big(777);
    let (shares, commitments) = vss.split_secret_with(&secret, &mut rng).unwrap();
    assert_eq!(shares.len(), 9);
    for share in &shares {
        assert!(vss.verify_share(share, &commitments));
        let tampered = Share { x: share.x.clone(), y: (&share.y + big(1)) % big(1019) };
        assert!(!vss.verify_share(&tampered, &commitments));
    }
    let quorum = vec![shares[8].clone(), shares[2].clone(), shares[5].clone(), shares[0].clone()];
    assert_eq!(vss.reconstruct_with_verification(&quorum, &commitments), Ok(secret));
}

#[test]
fn verification_needs_q_to_be_the_order_of_g() {
    // 2 has order 11 modulo 23, not 7: exponents reduced modulo 7 go wrong
    // as soon as a power of x wraps around.
    let vss = FeldmanVSS::new(big(23), big(7), big(2), 2, 6).unwrap();
    let (shares, commitments) = vss.split_with_coefficients(&bigs(&[1, 1]));
    assert_eq!(commitments.elements(), &bigs(&[2, 2]));
    // x = 1: y = 2, and 2 * 2 = 2^2
    assert_eq!(shares[0].y, big(2));
    assert!(vss.verify_share(&shares[0], &commitments));
    // x = 6: y = 7 mod 7 = 0, but 2 * 2^6 = 128 = 13 modulo 23, not 2^0
    assert_eq!(shares[5].y, big(0));
    assert!(!vss.verify_share(&shares[5], &commitments));
}
