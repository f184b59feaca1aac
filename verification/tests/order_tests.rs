//! Equality and the containment order of semigroups.
use semigroup_math::compute::compute;
use semigroup_math::order::js_cmp_semigroups;

#[test]
fn containment_glyphs() {
    let a = compute(&[3, 5]);
    let b = compute(&[3, 5, 7]);
    assert_eq!(js_cmp_semigroups(&a, &b), "\u{2282}");
    assert_eq!(js_cmp_semigroups(&b, &a), "\u{2283}");
    assert_eq!(js_cmp_semigroups(&a, &compute(&[6, 10])), "=");
    assert_eq!(js_cmp_semigroups(&compute(&[2, 5]), &compute(&[3, 4])), "?");
}

#[test]
fn equality_and_order_operators() {
    let a = compute(&[3, 5]);
    let b = compute(&[3, 5, 7]);
    assert!(a == compute(&[5, 3, 6]));
    assert!(a != b);
    assert!(a < b);
    assert!(b > a);
    assert_eq!(a.partial_cmp(&compute(&[2, 5])), None);
}
