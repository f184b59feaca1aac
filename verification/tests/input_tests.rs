//! Generator lists typed as text.
use semigroup_math::input::{js_compute, parse_generators};

#[test]
fn pieces_are_trimmed_and_non_positive_or_unreadable_ones_skipped() {
    assert_eq!(parse_generators("3, 5,7"), vec![3, 5, 7]);
    assert_eq!(parse_generators(" 0, x, 12 ,,+4\t"), vec![12, 4]);
    assert_eq!(parse_generators(""), Vec::<usize>::new());
    assert_eq!(parse_generators("99999999999999999999999, 6"), vec![6]);
    assert_eq!(parse_generators("-3,\u{3000}8\u{a0}"), vec![8]);
    assert_eq!(parse_generators("3 5"), Vec::<usize>::new());
}

#[test]
fn js_compute_builds_the_semigroup() {
    let s = js_compute("6, 9, 20").unwrap();
    assert_eq!((s.f, s.g, s.m), (43, 22, 6));
    assert!(js_compute(" , 0").is_none());
    assert!(js_compute("").is_none());
    // A common factor is divided out.
    assert_eq!(js_compute("4,6").unwrap().gen_set, vec![2, 3]);
}
