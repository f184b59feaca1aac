//! The prime-based generator list.
use semigroup_math::creators::{rolf_primes, rolf_primes_checked, rolf_primes_within};

#[test]
fn rolf_primes_of_small_indices() {
    assert_eq!(rolf_primes(1), vec![2, 3, 5, 7]);
    assert_eq!(rolf_primes(0), vec![2, 3, 5, 7]);
    assert_eq!(rolf_primes(3), vec![5, 7, 11, 13, 17, 19, 23]);
    assert_eq!(rolf_primes(10), vec![29, 31, 37, 41, 43, 47, 53, 59, 61, 67, 71, 73, 79, 83, 89, 97, 101, 103, 107, 109, 113, 127, 131, 137, 139]);
    assert_eq!(rolf_primes_checked(3), Some(vec![5, 7, 11, 13, 17, 19, 23]));
}

#[test]
fn rolf_primes_within_a_given_bound() {
    assert_eq!(rolf_primes_within(1, 10), Some(vec![2, 3, 5, 7]));
    assert_eq!(rolf_primes_within(3, 100), Some(vec![5, 7, 11, 13, 17, 19, 23]));
    assert_eq!(rolf_primes_within(3, 5), Some(vec![5, 7, 11, 13, 17, 19, 23]));
    assert_eq!(rolf_primes_within(1, u64::MAX), None);
    assert_eq!(rolf_primes_within(1, (usize::MAX / 5) as u64 + 1), None);
}

#[test]
fn rolf_primes_within_the_table_always_succeed() {
    // For n ≤ 54 primal reads p_n from its table, so the list is always there.
    for n in 0..=54usize {
        let r = rolf_primes_checked(n).expect("within the table");
        assert!(!r.is_empty());
        assert_eq!(rolf_primes(n), r);
    }
    assert_eq!(rolf_primes_checked(54).unwrap()[0], 251);
    assert_eq!(*rolf_primes(54).last().unwrap(), 1249);
}
