use semigroup_math::compute::compute;

#[test]
fn descent_adjoining_frobenius_is_descent_image() {
    // ⟨4,5⟩: f = 11, no Apéry element in (11, 15), so descent adjoins 11.
    let t = compute(&[4, 5]);
    let r = t.descent();
    assert_eq!(r.m, 4);
    assert_eq!(r.f, 7);
    assert_eq!(r.gen_set, vec![4, 5, 11]);
    assert!(r.gen_set.contains(&(r.f + r.m)));
    assert!(r.is_descent_image());
}

#[test]
fn descent_adjoining_shifted_apery_is_descent_image() {
    // ⟨5,7,9⟩: f = 13, Apéry 16 ∈ (13, 18), so descent adjoins 16 − 5 = 11.
    let t = compute(&[5, 7, 9]);
    let r = t.descent();
    assert_eq!(r.m, 5);
    assert_eq!(r.f, 13);
    assert_eq!(r.gen_set, vec![5, 7, 9, 11]);
    assert!(r.is_descent_image());
    // ⟨5,8,11⟩: f = 17, largest Apéry in (17, 22) is 19, so descent adjoins 14.
    let t = compute(&[5, 8, 11]);
    let r = t.descent();
    assert_eq!((r.m, r.f), (5, 17));
    assert!(r.gen_set.contains(&14));
    assert!(r.is_descent_image());
}

#[test]
fn descent_adjoining_a_small_shift_is_descent_image() {
    // ⟨3,5,7⟩: f = 4, largest Apéry in (4, 7) is 5 ≤ 2m, descent adjoins 2:
    // ⟨2,3⟩ with f = 1, and 3 = f + m is a generator.
    let r = compute(&[3, 5, 7]).descent();
    assert_eq!((r.m, r.f), (2, 1));
    assert_eq!(r.gen_set, vec![2, 3]);
    assert!(r.is_descent_image());
    // ⟨4,6,7,9⟩: f = 5, largest Apéry in (5, 9) is 7, descent adjoins 3:
    // ⟨3,4⟩ with f = 5, and m = 3 lies in (f − m, f).
    let r = compute(&[4, 6, 7, 9]).descent();
    assert_eq!((r.m, r.f), (3, 5));
    assert_eq!(r.gen_set, vec![3, 4]);
    assert!(r.is_descent_image());
}

#[test]
fn descent_of_a_large_semigroup() {
    // ⟨2,2000001⟩: f = 1999999 and no Apéry element in (f, f + 2), so
    // descent adjoins f.
    let t = compute(&[2, 2000001]);
    assert_eq!(t.f, 1999999);
    let r = t.descent();
    assert_eq!(r.gen_set, vec![2, 1999999]);
    assert_eq!(r.f, 1999997);
    assert!(r.is_descent_image());
}
