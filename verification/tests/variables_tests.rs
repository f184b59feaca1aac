//! Expressions over the invariants of a semigroup.
use semigroup_math::compute::compute;
use semigroup_math::semigroup::Semigroup;
use semigroup_math::variables::eval_expr;

fn sg_for(gens: &[usize]) -> Semigroup {
    compute(gens)
}

#[test]
fn scalars_resolve() {
    let s = sg_for(&[6, 9, 20]);
    assert_eq!(eval_expr("m", &s), Some(6));
    assert_eq!(eval_expr("f", &s), Some(43));
    assert_eq!(eval_expr("e", &s), Some(3));
    assert_eq!(eval_expr("f+1", &s), Some(44));
    assert_eq!(eval_expr("A", &s), Some(49)); // f + m
}

#[test]
fn indexed_access() {
    let s = sg_for(&[6, 9, 20]);
    assert_eq!(eval_expr("a[0]", &s), Some(0));
    // Recursive index: a[m-1] = a[5]; the Apéry set is [0,49,20,9,40,29], a[5] = 29.
    assert_eq!(eval_expr("a[m-1]", &s), Some(29));
    assert_eq!(eval_expr("q[e-1]", &s), Some(20));
    assert_eq!(eval_expr("q[99]", &s), Some(0)); // out of range → 0
}

#[test]
fn substitution_is_single_pass() {
    let s = sg_for(&[6, 9, 20]);
    // 100 + e = 100 + 3 = 103: digits written for one variable are never
    // read again as variables.
    assert_eq!(eval_expr("100+e", &s), Some(103));
}

#[test]
fn implicit_multiplication() {
    let s = sg_for(&[6, 9, 20]);
    assert_eq!(eval_expr("2m", &s), Some(12));
    assert_eq!(eval_expr("m2", &s), Some(12));
    assert_eq!(eval_expr("2e+1", &s), Some(7));
}

#[test]
fn malformed_returns_none() {
    let s = sg_for(&[6, 9, 20]);
    assert_eq!(eval_expr("a[", &s), None); // unmatched bracket
    assert_eq!(eval_expr("?", &s), None); // unknown character
}

#[test]
fn remaining_variables_and_nesting() {
    let s = sg_for(&[3, 5, 7]);
    // g = 3, t = 2, Q = 7, σ = 2, r = 1.
    assert_eq!(eval_expr("g", &s), Some(3));
    assert_eq!(eval_expr("t", &s), Some(2));
    assert_eq!(eval_expr("Q", &s), Some(7));
    assert_eq!(eval_expr("s", &s), Some(2));
    assert_eq!(eval_expr("r", &s), Some(1));
    // Variables that meet multiply: g·t = 6, and Apéry [0, 7, 5].
    assert_eq!(eval_expr("gt", &s), Some(6));
    assert_eq!(eval_expr("a[a[0]+1]", &s), Some(7));
    assert_eq!(eval_expr("a[q[0]-1]+q[1]", &s), Some(10));
    assert_eq!(eval_expr("2a[2]", &s), Some(10));
    // An index without a value stops the whole evaluation.
    assert_eq!(eval_expr("a[1-2]+1", &s), None);
    assert_eq!(eval_expr("x", &s), None);
}

#[test]
fn overflowing_expression_has_no_value() {
    let sg = sg_for(&[6, 9, 20]);
    assert_eq!(eval_expr("18446744073709551615+f", &sg), None);
    assert_eq!(eval_expr("f+1", &sg), Some(44));
}
