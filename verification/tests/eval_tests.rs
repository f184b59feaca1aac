//! The arithmetic expression evaluator.
use semigroup_math::eva::eval;

#[test]
fn test_number() {
    assert_eq!(eval("42"), Ok(42));
}

#[test]
fn test_add() {
    assert_eq!(eval("1 + 2"), Ok(3));
}

#[test]
fn test_sub() {
    assert_eq!(eval("10 - 3"), Ok(7));
}

#[test]
fn test_mul() {
    assert_eq!(eval("4 * 5"), Ok(20));
}

#[test]
fn test_div() {
    assert_eq!(eval("20 / 4"), Ok(5));
}

#[test]
fn test_precedence() {
    assert_eq!(eval("3 + 4 * 2"), Ok(11));
}

#[test]
fn test_parens() {
    assert_eq!(eval("(3 + 4) * 2"), Ok(14));
}

#[test]
fn test_nested_parens() {
    assert_eq!(eval("(1+(2*3))"), Ok(7));
}

#[test]
fn test_underflow() {
    assert!(eval("3 - 5").is_err());
}

#[test]
fn test_div_by_zero() {
    assert!(eval("1 / 0").is_err());
}

#[test]
fn test_unknown_char() {
    assert!(eval("1 $ 2").is_err());
}

#[test]
fn eval_error_messages_name_the_problem() {
    assert_eq!(eval("3 - 5"), Err("subtraction underflow".to_string()));
    assert_eq!(eval("1 / 0"), Err("division by zero".to_string()));
    assert_eq!(eval("1 $ 2"), Err("unknown character".to_string()));
    assert_eq!(eval("(1 + 2"), Err("expected ')'".to_string()));
    assert_eq!(eval("1 +"), Err("expected number or '('".to_string()));
    assert_eq!(eval("1 2"), Err("unexpected token".to_string()));
    assert_eq!(eval("99999999999999999999999999"), Err("number too large".to_string()));
}

#[test]
fn eval_left_associative_and_whitespace() {
    assert_eq!(eval("10 - 3 - 2"), Ok(5));
    assert_eq!(eval("100 / 10 / 5"), Ok(2));
    assert_eq!(eval(" \t7\n* 6 "), Ok(42));
    assert_eq!(eval("7 / 2"), Ok(3));
}

#[test]
fn overflow_is_an_error() {
    assert_eq!(eval("18446744073709551615 + 1"), Err("arithmetic overflow".to_string()));
    assert_eq!(eval("4294967296 * 4294967296"), Err("arithmetic overflow".to_string()));
    assert_eq!(eval("18446744073709551615 + 0"), Ok(18446744073709551615));
}
