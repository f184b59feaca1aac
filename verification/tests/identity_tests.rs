//! Identities of semigroups checked on concrete values: Selmer's formula,
//! the reflection through `f`, the anti-diagonal sums, the bounds on the
//! type, and symmetry.
use semigroup_math::compute::compute;

const CASES: &[&[usize]] = &[
    &[3, 5, 7],
    &[4, 5, 6],
    &[5, 7, 9, 11],
    &[6, 9, 20],
    &[7, 9, 11, 13],
    &[4, 6, 9, 11],
    &[8, 11, 13, 14, 17, 19, 21],
];

#[test]
fn reflection_and_selmer() {
    for gens in CASES {
        let s = compute(gens);
        assert_eq!(s.r + 2 * s.sigma, s.f + 1, "{gens:?}");
        assert_eq!(s.sigma + s.r, s.g, "{gens:?}");
        assert_eq!(s.f + s.r + 1, 2 * s.g, "{gens:?}");
        let gaps = (0..=s.f).filter(|&x| !s.element(x)).count();
        assert_eq!(gaps, s.g, "{gens:?}");
    }
}

#[test]
fn anti_diagonals_and_top_apery() {
    for gens in CASES {
        let s = compute(gens);
        assert_eq!(s.apery_set[s.mu], s.f + s.m, "{gens:?}");
        assert!(s.apery_set.iter().all(|&w| w <= s.f + s.m));
        for i in 0..s.m {
            assert_eq!(s.diag(i) + s.apery_set[i], s.f + s.m + s.r, "{gens:?} i={i}");
        }
        assert_eq!(s.diag(s.mu), s.r, "{gens:?}");
    }
}

#[test]
fn type_bounds_and_symmetry() {
    for gens in CASES {
        let s = compute(gens);
        assert!(s.t <= s.r + 1, "{gens:?}");
        assert!(s.rl < s.t, "{gens:?}");
        assert!(s.es <= s.e);
        assert_eq!(s.is_symmetric, s.r == 0, "{gens:?}");
        assert_eq!(s.is_symmetric, s.g == s.sigma, "{gens:?}");
        assert_eq!(s.is_almost_symmetric, s.t == s.r + 1, "{gens:?}");
    }
    // ⟨6, 9, 20⟩ is symmetric: every gap x has f − x in S.
    let s = compute(&[6, 9, 20]);
    assert!(s.is_symmetric);
    assert!((0..=s.f).filter(|&x| !s.element(x)).all(|x| s.element(s.f - x)));
    // ⟨3, 4, 5⟩ is almost symmetric with t = 2 = r + 1.
    let s = compute(&[3, 4, 5]);
    assert_eq!((s.t, s.r), (2, 1));
    assert!(s.is_almost_symmetric);
}

#[test]
fn trivial_semigroup_has_no_pseudo_frobenius() {
    let s = compute(&[1]);
    assert_eq!((s.m, s.f, s.t, s.rl, s.sigma, s.g), (1, 0, 0, 0, 1, 0));
}

#[test]
fn reflected_gaps_from_the_top_generator() {
    // f + m = 2g + 1 gives r = m − 2; f + m = 2g gives r = m − 1.
    for gens in CASES {
        let s = compute(gens);
        if s.f + s.m == 2 * s.g + 1 {
            assert_eq!(s.r, s.m - 2);
        }
        if s.f + s.m == 2 * s.g {
            assert_eq!(s.r, s.m - 1);
        }
    }
    let s = compute(&[3, 5, 7]);
    assert_eq!((s.f + s.m, 2 * s.g + 1, s.r), (7, 7, 1));
}

#[test]
fn main_diagonal_of_odd_multiplicity_and_r_i_sum() {
    let s = compute(&[3, 5, 7]);
    assert_eq!(s.main_diag(0), s.g + (s.m - 1) / 2);
    assert_eq!(s.main_diag(0), 4);
    for gens in [vec![5, 7, 9], vec![7, 8, 9, 10], vec![3, 10], vec![5, 6, 13]] {
        let s = compute(&gens);
        assert_eq!(s.main_diag(0), s.g + (s.m - 1) / 2, "{gens:?}");
    }
    let s = compute(&[4, 5, 11]);
    assert_eq!((s.r_i(1), s.r_i(2), s.r_i(3)), (1, 1, 0));
    assert_eq!((1..s.m).map(|i| s.r_i(i)).sum::<usize>(), s.r);
    // The class of f holds no reflected gap.
    for gens in [vec![4usize, 5, 11], vec![5, 7, 9], vec![6, 9, 20], vec![3, 10]] {
        let s = compute(&gens);
        assert_eq!(s.r_i(s.mu), 0, "{gens:?}");
    }
}

#[test]
fn compute_ignores_order_and_repetition() {
    let a = compute(&[6, 9, 20]);
    let b = compute(&[20, 6, 20, 9, 6]);
    assert_eq!(a.gen_set, b.gen_set);
    assert_eq!(a.apery_set, b.apery_set);
    assert_eq!((a.f, a.g, a.t, a.r, a.pf_set.clone()), (b.f, b.g, b.t, b.r, b.pf_set.clone()));
}

#[test]
fn compute_ignores_scaling_and_generated_elements() {
    let a = compute(&[6, 9, 20]);
    let scaled = compute(&[18, 27, 60]);
    let extended = compute(&[6, 9, 20, 35]);
    for b in [&scaled, &extended] {
        assert_eq!(a.gen_set, b.gen_set);
        assert_eq!(a.apery_set, b.apery_set);
        assert_eq!((a.f, a.g, a.t, a.r), (b.f, b.g, b.t, b.r));
    }
}

#[test]
fn compute_takes_a_large_generator_with_a_small_multiplicity() {
    let s = compute(&[2, 3, 2000000]);
    assert_eq!((s.m, s.f, s.gen_set.clone()), (2, 1, vec![2, 3]));
    let c = semigroup_math::compute::compute_checked(&[2, 3, 2000000]).unwrap();
    assert_eq!(c.gen_set, vec![2, 3]);
    let big = usize::MAX / 2;
    assert!(semigroup_math::compute::compute_checked(&[big, big - 1]).is_none());
    assert!(semigroup_math::compute::compute_checked(&[4, 6]).is_some());
}
