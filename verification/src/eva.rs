//! Evaluation of arithmetic expressions over non-negative integers:
//! numbers, `+`, `-`, `*`, `/` and parentheses, with `*` and `/` binding
//! tighter than `+` and `-`.
//!
//! ```text
//! expr   = term   (('+' | '-') term)*
//! term   = factor (('*' | '/') factor)*
//! factor = '(' expr ')' | number
//! number = [0-9]+
//! ```
//!
//! A subtraction below zero, a division by zero, an unknown character, a
//! number that does not fit in a `usize` and a malformed expression are
//! errors.
use vstd::prelude::*;
use crate::out_file::chars_vec;

verus! {

/// A token of the expression language.
#[derive(Debug, Clone, Copy, PartialEq, Eq, Structural)]
pub enum Token {
    /// A number.
    Num(usize),
    /// `+`
    Plus,
    /// `-`
    Minus,
    /// `*`
    Star,
    /// `/`
    Slash,
    /// `(`
    LParen,
    /// `)`
    RParen,
}

/// What went wrong while evaluating an expression.
#[derive(Debug, Clone, Copy, PartialEq, Eq, Structural)]
pub enum EvalError {
    /// A character outside the language.
    UnknownChar,
    /// A number that does not fit in a `usize`.
    TooLarge,
    /// A sum or product that does not fit in a `usize`.
    Overflow,
    /// A subtraction below zero.
    Underflow,
    /// A division by zero.
    DivByZero,
    /// A parenthesised expression without its `)`.
    ExpectedClose,
    /// A position that needs a number or `(`.
    ExpectedOperand,
    /// Tokens left over after a complete expression.
    Trailing,
}

/// `c` is an ASCII digit.
pub open spec fn is_digit(c: char) -> bool {
    '0' <= c <= '9'
}

/// `c` is skipped between tokens.
pub open spec fn is_space(c: char) -> bool {
    c == ' ' || c == '\t' || c == '\n'
}

/// The end of the run of digits that starts at `i`.
pub open spec fn digit_run_end(s: Seq<char>, i: int) -> int
    decreases s.len() - i,
{
    if 0 <= i < s.len() && is_digit(s[i]) {
        digit_run_end(s, i + 1)
    } else {
        i
    }
}

/// The number written by the digits `s[i..j]`.
pub open spec fn digits_value(s: Seq<char>, i: int, j: int) -> int
    decreases j - i,
{
    if j <= i {
        0
    } else {
        digits_value(s, i, j - 1) * 10 + (s[j - 1] as int - '0' as int)
    }
}

/// The tokens of `s[i..]`, or the first error.
pub open spec fn tokenize_from(s: Seq<char>, i: int) -> Result<Seq<Token>, EvalError>
    decreases s.len() - i, 1int,
{
    if i < 0 || i >= s.len() {
        Ok(Seq::empty())
    } else {
        let c = s[i];
        if is_space(c) {
            tokenize_from(s, i + 1)
        } else if is_digit(c) {
            let j = digit_run_end(s, i);
            let v = digits_value(s, i, j);
            if v > usize::MAX {
                Err(EvalError::TooLarge)
            } else if j <= i || j > s.len() {
                Err(EvalError::UnknownChar)
            } else {
                prepend(Token::Num(v as usize), tokenize_from(s, j))
            }
        } else if c == '+' {
            prepend(Token::Plus, tokenize_from(s, i + 1))
        } else if c == '-' {
            prepend(Token::Minus, tokenize_from(s, i + 1))
        } else if c == '*' {
            prepend(Token::Star, tokenize_from(s, i + 1))
        } else if c == '/' {
            prepend(Token::Slash, tokenize_from(s, i + 1))
        } else if c == '(' {
            prepend(Token::LParen, tokenize_from(s, i + 1))
        } else if c == ')' {
            prepend(Token::RParen, tokenize_from(s, i + 1))
        } else {
            Err(EvalError::UnknownChar)
        }
    }
}

/// `t` in front of the tokens of `rest`, or the error of `rest`.
pub open spec fn prepend(t: Token, rest: Result<Seq<Token>, EvalError>) -> Result<Seq<Token>, EvalError> {
    match rest {
        Ok(ts) => Ok(seq![t] + ts),
        Err(e) => Err(e),
    }
}

/// `factor = '(' expr ')' | number` at position `p`: value and next position.
pub open spec fn p_factor(t: Seq<Token>, p: int) -> Result<(int, int), EvalError>
    decreases t.len() - p, 0int,
{
    if 0 <= p < t.len() && t[p] is LParen {
        match p_expr(t, p + 1) {
            Err(e) => Err(e),
            Ok((v, q)) => if 0 <= q < t.len() && t[q] is RParen { Ok((v, q + 1)) } else { Err(EvalError::ExpectedClose) },
        }
    } else if 0 <= p < t.len() && t[p] is Num {
        Ok((t[p]->Num_0 as int, p + 1))
    } else {
        Err(EvalError::ExpectedOperand)
    }
}

/// `term = factor (('*' | '/') factor)*` at position `p`.
pub open spec fn p_term(t: Seq<Token>, p: int) -> Result<(int, int), EvalError>
    decreases t.len() - p, 2int,
{
    if p < 0 || p > t.len() {
        Err(EvalError::ExpectedOperand)
    } else {
        match p_factor(t, p) {
            Err(e) => Err(e),
            Ok((v, q)) => if p < q <= t.len() { p_term_rest(t, q, v) } else { Err(EvalError::ExpectedOperand) },
        }
    }
}

/// The `(('*' | '/') factor)*` tail of a term whose value so far is `acc`.
pub open spec fn p_term_rest(t: Seq<Token>, q: int, acc: int) -> Result<(int, int), EvalError>
    decreases t.len() - q, 1int,
{
    if 0 <= q < t.len() && (t[q] is Star || t[q] is Slash) {
        match p_factor(t, q + 1) {
            Err(e) => Err(e),
            Ok((v, q2)) => if q < q2 <= t.len() {
                if t[q] is Star {
                    if acc * v > usize::MAX { Err(EvalError::Overflow) } else { p_term_rest(t, q2, acc * v) }
                } else {
                    if v == 0 { Err(EvalError::DivByZero) } else { p_term_rest(t, q2, acc / v) }
                }
            } else {
                Err(EvalError::ExpectedOperand)
            },
        }
    } else {
        Ok((acc, q))
    }
}

/// `expr = term (('+' | '-') term)*` at position `p`.
pub open spec fn p_expr(t: Seq<Token>, p: int) -> Result<(int, int), EvalError>
    decreases t.len() - p, 4int,
{
    if p < 0 || p > t.len() {
        Err(EvalError::ExpectedOperand)
    } else {
        match p_term(t, p) {
            Err(e) => Err(e),
            Ok((v, q)) => if p < q <= t.len() { p_expr_rest(t, q, v) } else { Err(EvalError::ExpectedOperand) },
        }
    }
}

/// The `(('+' | '-') term)*` tail of an expression whose value so far is `acc`.
pub open spec fn p_expr_rest(t: Seq<Token>, q: int, acc: int) -> Result<(int, int), EvalError>
    decreases t.len() - q, 3int,
{
    if 0 <= q < t.len() && (t[q] is Plus || t[q] is Minus) {
        match p_term(t, q + 1) {
            Err(e) => Err(e),
            Ok((v, q2)) => if q < q2 <= t.len() {
                if t[q] is Plus {
                    if acc + v > usize::MAX { Err(EvalError::Overflow) } else { p_expr_rest(t, q2, acc + v) }
                } else {
                    if acc < v { Err(EvalError::Underflow) } else { p_expr_rest(t, q2, acc - v) }
                }
            } else {
                Err(EvalError::ExpectedOperand)
            },
        }
    } else {
        Ok((acc, q))
    }
}

/// The value of the expression written by `s`, or the first error met.
pub open spec fn eval_spec(s: Seq<char>) -> Result<int, EvalError> {
    match tokenize_from(s, 0) {
        Err(e) => Err(e),
        Ok(t) => match p_expr(t, 0) {
            Err(e) => Err(e),
            Ok((v, q)) => if q == t.len() { Ok(v) } else { Err(EvalError::Trailing) },
        },
    }
}

/// The message [`eval`] returns for an error.
pub open spec fn message_spec(e: EvalError) -> Seq<char> {
    match e {
        EvalError::UnknownChar => "unknown character"@,
        EvalError::TooLarge => "number too large"@,
        EvalError::Overflow => "arithmetic overflow"@,
        EvalError::Underflow => "subtraction underflow"@,
        EvalError::DivByZero => "division by zero"@,
        EvalError::ExpectedClose => "expected ')'"@,
        EvalError::ExpectedOperand => "expected number or '('"@,
        EvalError::Trailing => "unexpected token"@,
    }
}

/// The message for an error.
fn message(e: EvalError) -> (s: String)
    ensures
        s@ == message_spec(e),
{
    proof {
        reveal_strlit("unknown character");
        reveal_strlit("number too large");
        reveal_strlit("arithmetic overflow");
        reveal_strlit("subtraction underflow");
        reveal_strlit("division by zero");
        reveal_strlit("expected ')'");
        reveal_strlit("expected number or '('");
        reveal_strlit("unexpected token");
    }
    match e {
        EvalError::UnknownChar => String::from_str("unknown character"),
        EvalError::TooLarge => String::from_str("number too large"),
        EvalError::Overflow => String::from_str("arithmetic overflow"),
        EvalError::Underflow => String::from_str("subtraction underflow"),
        EvalError::DivByZero => String::from_str("division by zero"),
        EvalError::ExpectedClose => String::from_str("expected ')'"),
        EvalError::ExpectedOperand => String::from_str("expected number or '('"),
        EvalError::Trailing => String::from_str("unexpected token"),
    }
}

/// A digit run only grows its value, so a prefix too large for a `usize`
/// makes the whole run too large.
pub(crate) proof fn lemma_digits_grow(s: Seq<char>, i: int, j: int, k: int)
    requires
        i <= j <= k,
        forall|x: int| i <= x < k ==> #[trigger] is_digit(s[x]),
    ensures
        digits_value(s, i, j) <= digits_value(s, i, k),
        digits_value(s, i, j) >= 0,
    decreases k - j,
{
    if k > j {
        lemma_digits_grow(s, i, j, k - 1);
        assert(is_digit(s[k - 1]));
        lemma_digits_nonneg(s, i, k - 1);
    } else {
        lemma_digits_nonneg(s, i, j);
    }
}

/// Digit values are non-negative.
pub(crate) proof fn lemma_digits_nonneg(s: Seq<char>, i: int, j: int)
    requires
        forall|x: int| i <= x < j ==> #[trigger] is_digit(s[x]),
    ensures
        digits_value(s, i, j) >= 0,
    decreases j - i,
{
    if j > i {
        lemma_digits_nonneg(s, i, j - 1);
        assert(is_digit(s[j - 1]));
    }
}

/// The digit run starting at `i` ends at or after `i`, and is all digits.
proof fn lemma_run(s: Seq<char>, i: int)
    requires
        0 <= i <= s.len(),
    ensures
        i <= digit_run_end(s, i) <= s.len(),
        forall|x: int| i <= x < digit_run_end(s, i) ==> #[trigger] is_digit(s[x]),
        digit_run_end(s, i) < s.len() ==> !is_digit(s[digit_run_end(s, i)]),
    decreases s.len() - i,
{
    if i < s.len() && is_digit(s[i]) {
        lemma_run(s, i + 1);
    }
}

/// The tokens of `s[i..]`, or the first error.
fn tokenize(s: &Vec<char>) -> (r: Result<Vec<Token>, EvalError>)
    ensures
        match tokenize_from(s@, 0) {
            Ok(ts) => r matches Ok(v) && v@ == ts,
            Err(e) => r == Err::<Vec<Token>, EvalError>(e),
        },
{
    let n = s.len();
    let mut tokens: Vec<Token> = Vec::new();
    let mut i: usize = 0;
    while i < n
        invariant
            n == s@.len(),
            i <= n,
            forall|ts: Seq<Token>| tokenize_from(s@, i as int) == Ok::<Seq<Token>, EvalError>(ts)
                ==> tokenize_from(s@, 0) == Ok::<Seq<Token>, EvalError>(tokens@ + ts),
            forall|e: EvalError| tokenize_from(s@, i as int) == Err::<Seq<Token>, EvalError>(e)
                ==> tokenize_from(s@, 0) == Err::<Seq<Token>, EvalError>(e),
        decreases n - i,
    {
        let c = s[i];
        let ghost old_i = i as int;
        let ghost old_tokens = tokens@;
        if c == ' ' || c == '\t' || c == '\n' {
            i = i + 1;
            proof {
                assert(tokenize_from(s@, old_i) == tokenize_from(s@, i as int));
            }
        } else if '0' <= c && c <= '9' {
            proof {
                lemma_run(s@, i as int);
            }
            let start = i;
            let ghost end = digit_run_end(s@, start as int);
            let mut v: usize = 0;
            let mut too_large = false;
            while i < n && '0' <= s[i] && s[i] <= '9'
                invariant
                    n == s@.len(),
                    start <= i <= n,
                    end == digit_run_end(s@, start as int),
                    start <= end <= n,
                    forall|x: int| start <= x < end ==> #[trigger] is_digit(s@[x]),
                    end < n ==> !is_digit(s@[end]),
                    i <= end,
                    !too_large ==> v == digits_value(s@, start as int, i as int),
                    too_large ==> digits_value(s@, start as int, i as int) > usize::MAX,
                decreases n - i,
            {
                let d = (s[i] as u32 - '0' as u32) as usize;
                proof {
                    lemma_digits_nonneg(s@, start as int, i as int);
                    assert(digits_value(s@, start as int, i + 1) == digits_value(s@, start as int, i as int) * 10 + d);
                }
                if !too_large {
                    if v > (usize::MAX - d) / 10 {
                        too_large = true;
                        proof {
                            assert(v * 10 + d > usize::MAX) by (nonlinear_arith)
                                requires v > (usize::MAX - d) / 10, d <= 9;
                        }
                    } else {
                        proof {
                            assert(v * 10 + d <= usize::MAX) by (nonlinear_arith)
                                requires v <= (usize::MAX - d) / 10, d <= 9;
                        }
                        v = v * 10 + d;
                    }
                } else {
                    proof {
                        let pv = digits_value(s@, start as int, i as int);
                        assert(pv * 10 + d > usize::MAX) by (nonlinear_arith) requires pv > usize::MAX, d >= 0;
                    }
                }
                i = i + 1;
            }
            proof {
                assert(i == end);
                if too_large {
                    lemma_digits_grow(s@, start as int, i as int, end);
                }
            }
            if too_large {
                proof {
                    assert(tokenize_from(s@, old_i) == Err::<Seq<Token>, EvalError>(EvalError::TooLarge));
                }
                return Err(EvalError::TooLarge);
            }
            tokens.push(Token::Num(v));
            proof {
                assert(tokenize_from(s@, old_i) == prepend(Token::Num(v), tokenize_from(s@, i as int)));
                assert forall|ts: Seq<Token>| tokenize_from(s@, i as int) == Ok::<Seq<Token>, EvalError>(ts)
                    implies tokenize_from(s@, 0) == Ok::<Seq<Token>, EvalError>(tokens@ + ts) by {
                    assert(tokenize_from(s@, old_i) == Ok::<Seq<Token>, EvalError>(seq![Token::Num(v)] + ts));
                    assert(old_tokens + (seq![Token::Num(v)] + ts) == tokens@ + ts);
                }
                assert forall|e: EvalError| tokenize_from(s@, i as int) == Err::<Seq<Token>, EvalError>(e)
                    implies tokenize_from(s@, 0) == Err::<Seq<Token>, EvalError>(e) by {
                    assert(tokenize_from(s@, old_i) == Err::<Seq<Token>, EvalError>(e));
                }
            }
        } else {
            let t = if c == '+' {
                Token::Plus
            } else if c == '-' {
                Token::Minus
            } else if c == '*' {
                Token::Star
            } else if c == '/' {
                Token::Slash
            } else if c == '(' {
                Token::LParen
            } else if c == ')' {
                Token::RParen
            } else {
                proof {
                    assert(tokenize_from(s@, old_i) == Err::<Seq<Token>, EvalError>(EvalError::UnknownChar));
                }
                return Err(EvalError::UnknownChar);
            };
            tokens.push(t);
            i = i + 1;
            proof {
                assert(tokenize_from(s@, old_i) == prepend(t, tokenize_from(s@, i as int)));
                assert forall|ts: Seq<Token>| tokenize_from(s@, i as int) == Ok::<Seq<Token>, EvalError>(ts)
                    implies tokenize_from(s@, 0) == Ok::<Seq<Token>, EvalError>(tokens@ + ts) by {
                    assert(tokenize_from(s@, old_i) == Ok::<Seq<Token>, EvalError>(seq![t] + ts));
                    assert(old_tokens + (seq![t] + ts) == tokens@ + ts);
                }
                assert forall|e: EvalError| tokenize_from(s@, i as int) == Err::<Seq<Token>, EvalError>(e)
                    implies tokenize_from(s@, 0) == Err::<Seq<Token>, EvalError>(e) by {
                    assert(tokenize_from(s@, old_i) == Err::<Seq<Token>, EvalError>(e));
                }
            }
        }
    }
    proof {
        assert(tokens@ + Seq::<Token>::empty() == tokens@);
    }
    Ok(tokens)
}


/// The result of a parse step as the spec states it: the value and the next position.
pub open spec fn step_matches(r: Result<(usize, usize), EvalError>, spec: Result<(int, int), EvalError>) -> bool {
    match spec {
        Ok((v, q)) => r matches Ok((x, y)) && x == v && y == q,
        Err(e) => r == Err::<(usize, usize), EvalError>(e),
    }
}

/// `factor` at position `p`.
fn parse_factor(t: &Vec<Token>, p: usize) -> (r: Result<(usize, usize), EvalError>)
    requires
        p <= t@.len(),
    ensures
        step_matches(r, p_factor(t@, p as int)),
        r matches Ok((_, q)) ==> q <= t@.len(),
    decreases t@.len() - p, 0int,
{
    if p < t.len() {
        match t[p] {
            Token::LParen => {
                let (v, q) = match parse_expr(t, p + 1) {
                    Ok(x) => x,
                    Err(e) => {
                        return Err(e);
                    },
                };
                if q < t.len() && t[q] == Token::RParen {
                    Ok((v, q + 1))
                } else {
                    Err(EvalError::ExpectedClose)
                }
            },
            Token::Num(n) => Ok((n, p + 1)),
            _ => Err(EvalError::ExpectedOperand),
        }
    } else {
        Err(EvalError::ExpectedOperand)
    }
}

/// `term` at position `p`.
fn parse_term(t: &Vec<Token>, p: usize) -> (r: Result<(usize, usize), EvalError>)
    requires
        p <= t@.len(),
    ensures
        step_matches(r, p_term(t@, p as int)),
        r matches Ok((_, q)) ==> q <= t@.len(),
    decreases t@.len() - p, 2int,
{
    let (v, q) = match parse_factor(t, p) {
        Ok(x) => x,
        Err(e) => {
            return Err(e);
        },
    };
    if p < q && q <= t.len() {
        parse_term_rest(t, q, v)
    } else {
        Err(EvalError::ExpectedOperand)
    }
}

/// The `(('*' | '/') factor)*` tail of a term.
fn parse_term_rest(t: &Vec<Token>, q: usize, acc: usize) -> (r: Result<(usize, usize), EvalError>)
    requires
        q <= t@.len(),
    ensures
        step_matches(r, p_term_rest(t@, q as int, acc as int)),
        r matches Ok((_, q2)) ==> q2 <= t@.len(),
    decreases t@.len() - q, 1int,
{
    if q < t.len() && (t[q] == Token::Star || t[q] == Token::Slash) {
        let (v, q2) = match parse_factor(t, q + 1) {
            Ok(x) => x,
            Err(e) => {
                return Err(e);
            },
        };
        if q < q2 && q2 <= t.len() {
            if t[q] == Token::Star {
                match acc.checked_mul(v) {
                    Some(x) => parse_term_rest(t, q2, x),
                    None => Err(EvalError::Overflow),
                }
            } else {
                if v == 0 {
                    Err(EvalError::DivByZero)
                } else {
                    parse_term_rest(t, q2, acc / v)
                }
            }
        } else {
            Err(EvalError::ExpectedOperand)
        }
    } else {
        Ok((acc, q))
    }
}

/// `expr` at position `p`.
fn parse_expr(t: &Vec<Token>, p: usize) -> (r: Result<(usize, usize), EvalError>)
    requires
        p <= t@.len(),
    ensures
        step_matches(r, p_expr(t@, p as int)),
        r matches Ok((_, q)) ==> q <= t@.len(),
    decreases t@.len() - p, 4int,
{
    let (v, q) = match parse_term(t, p) {
        Ok(x) => x,
        Err(e) => {
            return Err(e);
        },
    };
    if p < q && q <= t.len() {
        parse_expr_rest(t, q, v)
    } else {
        Err(EvalError::ExpectedOperand)
    }
}

/// The `(('+' | '-') term)*` tail of an expression.
fn parse_expr_rest(t: &Vec<Token>, q: usize, acc: usize) -> (r: Result<(usize, usize), EvalError>)
    requires
        q <= t@.len(),
    ensures
        step_matches(r, p_expr_rest(t@, q as int, acc as int)),
        r matches Ok((_, q2)) ==> q2 <= t@.len(),
    decreases t@.len() - q, 3int,
{
    if q < t.len() && (t[q] == Token::Plus || t[q] == Token::Minus) {
        let (v, q2) = match parse_term(t, q + 1) {
            Ok(x) => x,
            Err(e) => {
                return Err(e);
            },
        };
        if q < q2 && q2 <= t.len() {
            if t[q] == Token::Plus {
                match acc.checked_add(v) {
                    Some(x) => parse_expr_rest(t, q2, x),
                    None => Err(EvalError::Overflow),
                }
            } else {
                if acc < v {
                    Err(EvalError::Underflow)
                } else {
                    parse_expr_rest(t, q2, acc - v)
                }
            }
        } else {
            Err(EvalError::ExpectedOperand)
        }
    } else {
        Ok((acc, q))
    }
}

/// Evaluates an arithmetic expression (see the module documentation);
/// an error carries the message of the first problem met, an overflowing
/// sum or product among them.
pub fn eval(input: &str) -> (r: Result<usize, String>)
    ensures
        match eval_spec(input@) {
            Ok(v) => r == Ok::<usize, String>(v as usize) && v <= usize::MAX,
            Err(e) => r matches Err(msg) && msg@ == message_spec(e),
        },
{
    let cs = chars_vec(input);
    eval_chars(&cs)
}

/// [`eval`] on the characters of an expression.
pub fn eval_chars(cs: &Vec<char>) -> (r: Result<usize, String>)
    ensures
        match eval_spec(cs@) {
            Ok(v) => r == Ok::<usize, String>(v as usize) && v <= usize::MAX,
            Err(e) => r matches Err(msg) && msg@ == message_spec(e),
        },
{
    let tokens = match tokenize(cs) {
        Ok(t) => t,
        Err(e) => {
            return Err(message(e));
        },
    };
    match parse_expr(&tokens, 0) {
        Ok((v, q)) => {
            if q == tokens.len() {
                Ok(v)
            } else {
                Err(message(EvalError::Trailing))
            }
        },
        Err(e) => Err(message(e)),
    }
}


/// An expression of two numbers and one operator evaluates to the
/// arithmetic result: `a + b` and `a · b` unless they exceed `usize::MAX`
/// (an overflow), `a − b` exactly when `b ≤ a` (an underflow when `b > a`),
/// and `a / b` rounded down unless `b = 0`.
pub proof fn lemma_eval_binary(s: Seq<char>, a: usize, op: Token, b: usize)
    requires
        op is Plus || op is Minus || op is Star || op is Slash,
        tokenize_from(s, 0) == Ok::<Seq<Token>, EvalError>(seq![Token::Num(a), op, Token::Num(b)]),
    ensures
        op is Plus ==> eval_spec(s) == if a + b <= usize::MAX { Ok::<int, EvalError>(a + b) } else { Err(EvalError::Overflow) },
        op is Minus ==> eval_spec(s) == if b <= a { Ok::<int, EvalError>(a - b) } else { Err(EvalError::Underflow) },
        op is Star ==> eval_spec(s) == if a * b <= usize::MAX { Ok::<int, EvalError>(a * b) } else { Err(EvalError::Overflow) },
        op is Slash ==> eval_spec(s) == if b != 0 { Ok::<int, EvalError>(a as int / b as int) } else { Err(EvalError::DivByZero) },
{
    let t = seq![Token::Num(a), op, Token::Num(b)];
    assert(t[0] == Token::Num(a) && t[1] == op && t[2] == Token::Num(b));
    assert(p_factor(t, 0) == Ok::<(int, int), EvalError>((a as int, 1)));
    assert(p_factor(t, 2) == Ok::<(int, int), EvalError>((b as int, 3)));
    assert(p_term_rest(t, 3, b as int) == Ok::<(int, int), EvalError>((b as int, 3)));
    assert(p_term(t, 2) == Ok::<(int, int), EvalError>((b as int, 3)));
    assert(p_expr_rest(t, 3, a + b) == Ok::<(int, int), EvalError>((a + b, 3)));
    assert(p_expr_rest(t, 3, a - b) == Ok::<(int, int), EvalError>((a - b, 3)));
    if op is Plus || op is Minus {
        assert(p_term_rest(t, 1, a as int) == Ok::<(int, int), EvalError>((a as int, 1)));
        assert(p_term(t, 0) == Ok::<(int, int), EvalError>((a as int, 1)));
    } else {
        assert(p_term_rest(t, 3, a * b) == Ok::<(int, int), EvalError>((a * b, 3)));
        if b != 0 {
            assert(p_term_rest(t, 3, a as int / b as int) == Ok::<(int, int), EvalError>((a as int / b as int, 3)));
        }
        assert(p_expr_rest(t, 3, a * b) == Ok::<(int, int), EvalError>((a * b, 3)));
        if b != 0 {
            assert(p_expr_rest(t, 3, a as int / b as int) == Ok::<(int, int), EvalError>((a as int / b as int, 3)));
        }
    }
}


/// The meaning of one operator on two values: the arithmetic result, an
/// overflow above `usize::MAX`, an underflow below 0, or a division by zero.
pub open spec fn apply_op(op: Token, x: int, y: int) -> Result<int, EvalError> {
    if op is Plus {
        if x + y <= usize::MAX { Ok(x + y) } else { Err(EvalError::Overflow) }
    } else if op is Minus {
        if y <= x { Ok(x - y) } else { Err(EvalError::Underflow) }
    } else if op is Star {
        if x * y <= usize::MAX { Ok(x * y) } else { Err(EvalError::Overflow) }
    } else {
        if y != 0 { Ok(x / y) } else { Err(EvalError::DivByZero) }
    }
}

/// `*` and `/` bind tighter than `+` and `-`.
pub open spec fn multiplicative(op: Token) -> bool {
    op is Star || op is Slash
}

/// Applies `op` to an earlier result, passing its error on.
pub open spec fn then_op(r: Result<int, EvalError>, op: Token, y: int) -> Result<int, EvalError> {
    match r {
        Ok(x) => apply_op(op, x, y),
        Err(e) => Err(e),
    }
}

/// Applies `op` with an earlier result as the right operand.
pub open spec fn op_then(x: int, op: Token, r: Result<int, EvalError>) -> Result<int, EvalError> {
    match r {
        Ok(y) => apply_op(op, x, y),
        Err(e) => Err(e),
    }
}

/// Three numbers and two operators evaluate as arithmetic does: operators
/// of the same strength from left to right, and `*` or `/` after `+` or `-`
/// first; the first failing step gives the error.
pub proof fn lemma_eval_three(s: Seq<char>, a: usize, op1: Token, b: usize, op2: Token, c: usize)
    requires
        !(op1 is Num || op1 is LParen || op1 is RParen),
        !(op2 is Num || op2 is LParen || op2 is RParen),
        tokenize_from(s, 0) == Ok::<Seq<Token>, EvalError>(seq![Token::Num(a), op1, Token::Num(b), op2, Token::Num(c)]),
    ensures
        eval_spec(s) == if !multiplicative(op1) && multiplicative(op2) {
            op_then(a as int, op1, apply_op(op2, b as int, c as int))
        } else {
            then_op(apply_op(op1, a as int, b as int), op2, c as int)
        },
{
    let t = seq![Token::Num(a), op1, Token::Num(b), op2, Token::Num(c)];
    assert(t[0] == Token::Num(a) && t[1] == op1 && t[2] == Token::Num(b) && t[3] == op2 && t[4] == Token::Num(c));
    assert(p_factor(t, 0) == Ok::<(int, int), EvalError>((a as int, 1)));
    assert(p_factor(t, 2) == Ok::<(int, int), EvalError>((b as int, 3)));
    assert(p_factor(t, 4) == Ok::<(int, int), EvalError>((c as int, 5)));
    assert forall|x: int| #[trigger] p_term_rest(t, 5, x) == Ok::<(int, int), EvalError>((x, 5)) by {}
    assert forall|x: int| #[trigger] p_expr_rest(t, 5, x) == Ok::<(int, int), EvalError>((x, 5)) by {}
    assert(p_term(t, 4) == Ok::<(int, int), EvalError>((c as int, 5)));
    if multiplicative(op2) {
        assert forall|x: int| #[trigger] p_term_rest(t, 3, x) == match apply_op(op2, x, c as int) {
            Ok(v) => Ok::<(int, int), EvalError>((v, 5)),
            Err(e) => Err(e),
        } by {
            assert(p_factor(t, 4) == Ok::<(int, int), EvalError>((c as int, 5)));
            assert(p_term_rest(t, 5, x * c) == Ok::<(int, int), EvalError>((x * c, 5)));
            assert(p_term_rest(t, 5, x / (c as int)) == Ok::<(int, int), EvalError>((x / (c as int), 5)));
        }
        assert(p_expr_rest(t, 3, 0) == Ok::<(int, int), EvalError>((0, 3))) by {
            assert(!(t[3] is Plus || t[3] is Minus));
        }
    } else {
        assert forall|x: int| #[trigger] p_term_rest(t, 3, x) == Ok::<(int, int), EvalError>((x, 3)) by {}
        assert forall|x: int| #[trigger] p_expr_rest(t, 3, x) == match apply_op(op2, x, c as int) {
            Ok(v) => Ok::<(int, int), EvalError>((v, 5)),
            Err(e) => Err(e),
        } by {
            assert(p_term(t, 4) == Ok::<(int, int), EvalError>((c as int, 5)));
            assert(p_expr_rest(t, 5, x + c) == Ok::<(int, int), EvalError>((x + c, 5)));
            assert(p_expr_rest(t, 5, x - c) == Ok::<(int, int), EvalError>((x - c, 5)));
        }
    }
    if multiplicative(op1) {
        match apply_op(op1, a as int, b as int) {
            Ok(v1) => {
                assert(p_term_rest(t, 1, a as int) == p_term_rest(t, 3, v1));
                assert(p_term(t, 0) == p_term_rest(t, 3, v1));
                match apply_op(op2, v1, c as int) {
                    Ok(v2) => {
                        if multiplicative(op2) {
                            assert(p_expr(t, 0) == p_expr_rest(t, 5, v2));
                        } else {
                            assert(p_expr(t, 0) == p_expr_rest(t, 3, v1));
                        }
                    },
                    Err(e) => {
                        if !multiplicative(op2) {
                            assert(p_expr(t, 0) == p_expr_rest(t, 3, v1));
                        }
                    },
                }
            },
            Err(e) => {
                assert(p_term_rest(t, 1, a as int) == Err::<(int, int), EvalError>(e));
            },
        }
    } else {
        assert(p_term_rest(t, 1, a as int) == Ok::<(int, int), EvalError>((a as int, 1)));
        assert(p_term(t, 0) == Ok::<(int, int), EvalError>((a as int, 1)));
        assert(p_expr(t, 0) == p_expr_rest(t, 1, a as int));
        assert(p_term(t, 2) == p_term_rest(t, 3, b as int));
        if multiplicative(op2) {
            match apply_op(op2, b as int, c as int) {
                Ok(v) => {
                    assert(p_term(t, 2) == Ok::<(int, int), EvalError>((v, 5)));
                    match apply_op(op1, a as int, v) {
                        Ok(w) => {
                            assert(p_expr_rest(t, 1, a as int) == p_expr_rest(t, 5, w));
                        },
                        Err(e) => {},
                    }
                },
                Err(e) => {},
            }
        } else {
            assert(p_term(t, 2) == Ok::<(int, int), EvalError>((b as int, 3)));
            match apply_op(op1, a as int, b as int) {
                Ok(v1) => {
                    assert(p_expr_rest(t, 1, a as int) == p_expr_rest(t, 3, v1));
                },
                Err(e) => {},
            }
        }
    }
}

} // verus!
