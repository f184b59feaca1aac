//! gcd and binomial coefficients.
use semigroup_math::arith::{binom, gcd};

#[test]
fn test_gcd() {
    assert_eq!(gcd(12, 8), 4);
    assert_eq!(gcd(7, 3), 1);
    assert_eq!(gcd(0, 5), 5);
    assert_eq!(gcd(9, 0), 9);
}

#[test]
fn test_binom_basics() {
    // Edge cases: b > a, b = 0, b = a.
    assert_eq!(binom(3, 5), Some(0));
    assert_eq!(binom(0, 0), Some(1));
    assert_eq!(binom(7, 0), Some(1));
    assert_eq!(binom(7, 7), Some(1));

    // Known values.
    assert_eq!(binom(5, 2), Some(10));
    assert_eq!(binom(10, 3), Some(120));
    assert_eq!(binom(20, 10), Some(184_756));

    // Symmetry: C(a, b) = C(a, a − b).
    for a in 0..=20 {
        for b in 0..=a {
            assert_eq!(binom(a, b), binom(a, a - b), "symmetry for ({a}, {b})");
        }
    }

    // Pascal's identity: C(n, k) = C(n−1, k−1) + C(n−1, k) for 1 ≤ k ≤ n−1.
    for n in 2..=20 {
        for k in 1..n {
            let lhs = binom(n, k).expect("no overflow at n ≤ 20");
            let a = binom(n - 1, k - 1).expect("no overflow");
            let b = binom(n - 1, k).expect("no overflow");
            assert_eq!(lhs, a + b, "Pascal at ({n}, {k})");
        }
    }
}

#[test]
fn test_binom_overflow() {
    assert!(binom(200, 100).is_none(), "C(200,100) ≈ 9·10^58 must overflow",);
    assert_eq!(binom(20, 10), Some(184_756));
}

#[test]
fn binom_largest_fitting_values() {
    // C(62, 31) fits in 64 bits while C(70, 35) does not.
    if usize::BITS == 64 {
        assert_eq!(binom(62, 31), Some(465_428_353_255_261_088));
        assert!(binom(70, 35).is_none());
    }
    assert_eq!(binom(1, 1), Some(1));
    assert_eq!(binom(0, 3), Some(0));
}
