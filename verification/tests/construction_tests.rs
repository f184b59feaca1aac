//! Self-gluing and the symmetric partner.
use semigroup_math::compute::compute;
use semigroup_math::constructions::{can_self_glue, self_glue, symmetric_partner};

#[test]
fn self_glue_3_5() {
    // <3,5>: m=3, first x with gcd(3,x)=1 is 5.
    // New gens: 3·{3,5} ∪ 5·{3,5} = {9,15,25}.
    let s = compute(&[3, 5]);
    let g = self_glue(&s).unwrap();
    assert_eq!(g.gen_set, vec![9, 15, 25]);
}

#[test]
fn self_glue_6_9_20() {
    // <6,9,20>: gcd(6,9)=3 ≠ 1, gcd(6,20)=2 ≠ 1, so None.
    let s = compute(&[6, 9, 20]);
    assert!(self_glue(&s).is_none());
}

#[test]
fn self_glue_4_7() {
    // <4,7>: 4·{4,7} ∪ 7·{4,7} = {16,28,49}.
    let s = compute(&[4, 7]);
    let g = self_glue(&s).unwrap();
    assert_eq!(g.gen_set, vec![16, 28, 49]);
}

#[test]
fn can_self_glue_matches_self_glue() {
    assert!(can_self_glue(&compute(&[3, 5])));
    assert!(!can_self_glue(&compute(&[6, 9, 20])));
    assert!(can_self_glue(&compute(&[6, 7, 8, 9])));
}

/// Verify S = S̄/2 and S̄ is symmetric.
fn check_partner(gens: &[usize]) {
    let s = compute(gens);
    let s_bar = symmetric_partner(&s);

    // S̄ must be symmetric.
    assert!(s_bar.is_symmetric(), "S̄ not symmetric for S=<{gens:?}>, F(S̄)={}", s_bar.f);

    // S = S̄/2: check for all n in 0..=F(S̄)/2 + 2.
    let limit = s_bar.f / 2 + 2;
    for n in 0..=limit {
        let in_s = s.element(n);
        let in_s_bar_2 = s_bar.element(2 * n);
        assert_eq!(
            in_s, in_s_bar_2,
            "S ≠ S̄/2 at n={n} for S=<{gens:?}>: element(n)={in_s}, element(2n)={in_s_bar_2}"
        );
    }
}

#[test]
fn test_partner_3_5() {
    // ⟨3,5⟩ → S̄ = ⟨6,10,13⟩  (F(S̄)=27=4·7−1)
    let s = compute(&[3, 5]);
    let s_bar = symmetric_partner(&s);
    assert_eq!(s_bar.f, 4 * s.f - 1);
    check_partner(&[3, 5]);
}

#[test]
fn test_partner_4_6_11() {
    check_partner(&[4, 6, 11]);
}

#[test]
fn test_partner_6_9_20() {
    check_partner(&[6, 9, 20]);
}

#[test]
fn test_partner_symmetric_is_self() {
    check_partner(&[3, 5]);
    check_partner(&[5, 7]); // symmetric (F=23)
    check_partner(&[4, 5, 7]); // symmetric
}

#[test]
fn test_partner_g1() {
    // g = 1: S = ⟨2,3⟩, S̄ = ⟨4,5,6⟩
    let s = compute(&[2, 3]);
    let s_bar = symmetric_partner(&s);
    assert_eq!(s_bar.gen_set, vec![4, 5, 6]);
    check_partner(&[2, 3]);
}

#[test]
fn test_partner_large() {
    check_partner(&[13, 17, 27]);
    check_partner(&[10, 21, 22, 23]);
}

#[test]
fn partner_of_the_naturals_is_the_naturals() {
    let s = compute(&[1]);
    let s_bar = symmetric_partner(&s);
    assert_eq!(s_bar.gen_set, vec![1]);
    assert_eq!(s_bar.f, 0);
}

#[test]
fn toggle_removes_a_minimal_generator() {
    let s = semigroup_math::compute::compute(&[3, 4, 5]);
    assert_eq!(s.toggle(4).gen_set, vec![3, 5, 7]);
    let s = semigroup_math::compute::compute(&[3, 5, 7]);
    let t = s.toggle(3);
    assert_eq!(t.gen_set, vec![5, 6, 7, 8, 9]);
    for x in 0..30 {
        assert_eq!(t.element(x), s.element(x) && x != 3, "{x}");
    }
    // A gap is adjoined.
    assert_eq!(s.toggle(4).gen_set, vec![3, 4, 5]);
    // ℕ without 1.
    let n = semigroup_math::compute::compute(&[1]);
    assert_eq!(n.toggle(1).gen_set, vec![2, 3]);
    // An element that is no minimal generator: regenerated from the
    // elements up to f + m that stay.
    let s = semigroup_math::compute::compute(&[3, 5]);
    assert_eq!(s.toggle(6).gen_set, vec![5, 8, 9]);
}

#[test]
fn self_glue_of_a_large_semigroup() {
    // ⟨2,3001⟩: 2·{2,3001} ∪ 3001·{2,3001} = {4, 6002, 9006001}.
    let s = compute(&[2, 3001]);
    let g = self_glue(&s).unwrap();
    assert_eq!(g.gen_set, vec![4, 6002, 9006001]);
    assert_eq!(g.f, 9012003 - 4);
}
