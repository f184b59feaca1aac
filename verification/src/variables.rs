//! Arithmetic expressions over the invariants of a semigroup.
//!
//! The one-letter variables are `e` (embedding dimension), `g` (genus),
//! `f` (Frobenius number), `t` (type), `m` (multiplicity), `Q` (largest
//! generator), `A = f + m`, `s = σ` and `r` (reflected gaps); `a[i]` is the
//! Apéry element `w_i` and `q[i]` the `i`-th minimal generator (0 when `i`
//! is out of range), where the index is itself an expression. Each
//! variable is replaced by its decimal value in one pass from left to right,
//! with a `*` put in between a number and a variable or two variables that
//! meet (`2m` is `2*m`), and the result goes to [`eval`](crate::eva::eval).
use vstd::prelude::*;
use vstd::string::StringExecFns;
use crate::eva::{eval_chars, eval_spec, is_digit, EvalError};
use crate::out_file::chars_vec;
use crate::semigroup::Semigroup;
use crate::strata::dec;
use crate::text::push_usize;

verus! {

/// What was written last, which decides whether a `*` goes before the next
/// piece.
#[derive(Debug, Clone, Copy, PartialEq, Eq, Structural)]
pub enum Emitted {
    /// Nothing yet.
    Nothing,
    /// A digit of the expression.
    Digit,
    /// The value of a variable.
    Var,
    /// Any other character of the expression.
    Other,
}

/// A `*` belongs between `prev` and `next`: a digit or variable followed by
/// a variable, or a variable followed by a digit.
pub open spec fn needs_mul(prev: Emitted, next: Emitted) -> bool {
    ((prev == Emitted::Digit || prev == Emitted::Var) && next == Emitted::Var) || (prev == Emitted::Var && next
        == Emitted::Digit)
}

/// Whether a `*` belongs between `prev` and `next`.
fn needs_mul_exec(prev: Emitted, next: Emitted) -> (b: bool)
    ensures
        b == needs_mul(prev, next),
{
    match (prev, next) {
        (Emitted::Digit, Emitted::Var) => true,
        (Emitted::Var, Emitted::Var) => true,
        (Emitted::Var, Emitted::Digit) => true,
        _ => false,
    }
}

/// The value of the one-letter variable `c`, if it is one.
pub open spec fn scalar(s: Semigroup, c: char) -> Option<int> {
    if c == 'e' {
        Some(s.e as int)
    } else if c == 'g' {
        Some(s.g as int)
    } else if c == 'f' {
        Some(s.f as int)
    } else if c == 't' {
        Some(s.t as int)
    } else if c == 'Q' {
        Some(s.max_gen as int)
    } else if c == 'A' {
        Some(s.f + s.m)
    } else if c == 's' {
        Some(s.sigma as int)
    } else if c == 'r' {
        Some(s.r as int)
    } else if c == 'm' {
        Some(s.m as int)
    } else {
        None
    }
}

/// The value of the one-letter variable `c`, if it is one.
fn scalar_exec(sg: &Semigroup, c: char) -> (r: Option<usize>)
    requires
        sg.wf(),
    ensures
        match scalar(*sg, c) {
            Some(v) => r == Some(v as usize) && v <= usize::MAX,
            None => r is None,
        },
{
    if c == 'e' {
        Some(sg.e)
    } else if c == 'g' {
        Some(sg.g)
    } else if c == 'f' {
        Some(sg.f)
    } else if c == 't' {
        Some(sg.t)
    } else if c == 'Q' {
        Some(sg.max_gen)
    } else if c == 'A' {
        proof {
            let m = sg.m as int;
            let f = sg.f as int;
            assert(f + m <= 4 * (m * (f + m))) by (nonlinear_arith)
                requires m >= 1, f >= 0;
        }
        Some(sg.f + sg.m)
    } else if c == 's' {
        Some(sg.sigma)
    } else if c == 'r' {
        Some(sg.r)
    } else if c == 'm' {
        Some(sg.m)
    } else {
        None
    }
}

/// The `]` that closes the bracket open at `depth` when the scan reaches
/// `k`: brackets nest, and the one at depth 1 closes it.
pub open spec fn bracket_close(x: Seq<char>, k: int, depth: int) -> Option<int>
    decreases x.len() - k,
{
    if k < 0 || k >= x.len() {
        None
    } else if x[k] == '[' {
        bracket_close(x, k + 1, depth + 1)
    } else if x[k] == ']' {
        if depth <= 1 {
            Some(k)
        } else {
            bracket_close(x, k + 1, depth - 1)
        }
    } else {
        bracket_close(x, k + 1, depth)
    }
}

/// A closing bracket lies in the text, after an opening one at `k`.
pub proof fn lemma_bracket_close(x: Seq<char>, k: int, depth: int)
    ensures
        bracket_close(x, k, depth) matches Some(c) ==> 0 <= k <= c < x.len() && (x[k] == '[' ==> k < c),
    decreases x.len() - k,
{
    if 0 <= k < x.len() {
        if x[k] == '[' {
            lemma_bracket_close(x, k + 1, depth + 1);
        } else if x[k] == ']' {
            if depth > 1 {
                lemma_bracket_close(x, k + 1, depth - 1);
            }
        } else {
            lemma_bracket_close(x, k + 1, depth);
        }
    }
}

/// `a[` or `q[` at `i`, with its closing bracket.
pub open spec fn indexed_at(x: Seq<char>, i: int) -> bool {
    &&& 0 <= i
    &&& i + 1 < x.len()
    &&& x[i] == 'a' || x[i] == 'q'
    &&& x[i + 1] == '['
    &&& bracket_close(x, i + 1, 0) is Some
}

/// How an evaluation ends without a value.
#[derive(Debug, Clone, Copy, PartialEq, Eq, Structural)]
pub enum Stop {
    /// Some expression is not well formed or cannot be evaluated.
    Fails,
    /// Some sum or product overflows a `usize`.
    Overflows,
}

/// `p` in front of the text of `rest`, or where `rest` stopped.
pub open spec fn emit(p: Seq<char>, rest: Result<Seq<char>, Stop>) -> Result<Seq<char>, Stop> {
    match rest {
        Ok(t) => Ok(p + t),
        Err(e) => Err(e),
    }
}

/// A `*` when `b`.
pub open spec fn star_if(b: bool) -> Seq<char> {
    if b {
        seq!['*']
    } else {
        Seq::empty()
    }
}

/// The value of an expression: its text after substitution, evaluated.
pub open spec fn ev_expr(s: Semigroup, x: Seq<char>) -> Result<usize, Stop>
    decreases x.len(), 1int, 0int,
{
    match subst(s, x, 0, Emitted::Nothing) {
        Ok(t) => match eval_spec(t) {
            Ok(v) => Ok(v as usize),
            Err(EvalError::Overflow) => Err(Stop::Overflows),
            Err(_) => Err(Stop::Fails),
        },
        Err(e) => Err(e),
    }
}

/// The text of `x[i..]` after substitution, `prev` being what was written
/// last; it stops at the first index expression without a value.
pub open spec fn subst(s: Semigroup, x: Seq<char>, i: int, prev: Emitted) -> Result<Seq<char>, Stop>
    decreases x.len(), 0int, x.len() - i,
{
    if i < 0 || i >= x.len() {
        Ok(Seq::empty())
    } else if indexed_at(x, i) {
        let close = bracket_close(x, i + 1, 0)->Some_0;
        proof {
            lemma_bracket_close(x, i + 1, 0);
        }
        match ev_expr(s, x.subrange(i + 2, close)) {
            Err(e) => Err(e),
            Ok(idx) => {
                let set = if x[i] == 'a' { s.apery_set@ } else { s.gen_set@ };
                let value: int = if idx < set.len() { set[idx as int] as int } else { 0 };
                emit(star_if(needs_mul(prev, Emitted::Var)) + dec(value as nat), subst(s, x, close + 1, Emitted::Var))
            },
        }
    } else if scalar(s, x[i]) is Some {
        emit(
            star_if(needs_mul(prev, Emitted::Var)) + dec(scalar(s, x[i])->Some_0 as nat),
            subst(s, x, i + 1, Emitted::Var),
        )
    } else {
        let k = if is_digit(x[i]) { Emitted::Digit } else { Emitted::Other };
        emit(star_if(needs_mul(prev, k)) + seq![x[i]], subst(s, x, i + 1, k))
    }
}

/// [`ev_expr`] evaluates the substituted text.
pub proof fn lemma_ev_expr(s: Semigroup, x: Seq<char>)
    ensures
        ev_expr(s, x) == (match subst(s, x, 0, Emitted::Nothing) {
            Ok(t) => match eval_spec(t) {
                Ok(v) => Ok(v as usize),
                Err(EvalError::Overflow) => Err(Stop::Overflows),
                Err(_) => Err(Stop::Fails),
            },
            Err(e) => Err(e),
        }),
{
}

/// Nothing is left to substitute at the end.
pub proof fn lemma_subst_end(s: Seq<char>, sg: Semigroup, i: int, prev: Emitted)
    requires
        i >= s.len(),
    ensures
        subst(sg, s, i, prev) == Ok::<Seq<char>, Stop>(Seq::empty()),
{
}

/// An index expression is evaluated and its value looked up.
pub proof fn lemma_subst_indexed(s: Semigroup, x: Seq<char>, i: int, prev: Emitted)
    requires
        indexed_at(x, i),
    ensures
        subst(s, x, i, prev) == (match ev_expr(s, x.subrange(i + 2, bracket_close(x, i + 1, 0)->Some_0)) {
            Err(e) => Err(e),
            Ok(idx) => {
                let set = if x[i] == 'a' { s.apery_set@ } else { s.gen_set@ };
                let value: int = if idx < set.len() { set[idx as int] as int } else { 0 };
                emit(
                    star_if(needs_mul(prev, Emitted::Var)) + dec(value as nat),
                    subst(s, x, bracket_close(x, i + 1, 0)->Some_0 + 1, Emitted::Var),
                )
            },
        }),
{
}

/// A one-letter variable is replaced by its value.
pub proof fn lemma_subst_scalar(s: Semigroup, x: Seq<char>, i: int, prev: Emitted)
    requires
        0 <= i < x.len(),
        !indexed_at(x, i),
        scalar(s, x[i]) is Some,
    ensures
        subst(s, x, i, prev) == emit(
            star_if(needs_mul(prev, Emitted::Var)) + dec(scalar(s, x[i])->Some_0 as nat),
            subst(s, x, i + 1, Emitted::Var),
        ),
{
}

/// Any other character is kept.
pub proof fn lemma_subst_other(s: Semigroup, x: Seq<char>, i: int, prev: Emitted)
    requires
        0 <= i < x.len(),
        !indexed_at(x, i),
        scalar(s, x[i]) is None,
    ensures
        subst(s, x, i, prev) == ({
            let k = if is_digit(x[i]) { Emitted::Digit } else { Emitted::Other };
            emit(star_if(needs_mul(prev, k)) + seq![x[i]], subst(s, x, i + 1, k))
        }),
{
}

/// The text written so far, followed by the substitution of the rest, is
/// the substitution of the whole; a step that writes `p` keeps that.
proof fn lemma_step(
    s: Semigroup,
    x: Seq<char>,
    i: int,
    prev: Emitted,
    j: int,
    next: Emitted,
    p: Seq<char>,
    out: Seq<char>,
)
    requires
        subst(s, x, i, prev) == emit(p, subst(s, x, j, next)),
        match subst(s, x, i, prev) {
            Ok(t) => subst(s, x, 0, Emitted::Nothing) == Ok::<Seq<char>, Stop>(out + t),
            Err(e) => subst(s, x, 0, Emitted::Nothing) == Err::<Seq<char>, Stop>(e),
        },
    ensures
        match subst(s, x, j, next) {
            Ok(t) => subst(s, x, 0, Emitted::Nothing) == Ok::<Seq<char>, Stop>((out + p) + t),
            Err(e) => subst(s, x, 0, Emitted::Nothing) == Err::<Seq<char>, Stop>(e),
        },
{
    match subst(s, x, j, next) {
        Ok(t) => {
            assert(out + (p + t) =~= (out + p) + t);
        },
        Err(e) => {},
    }
}

/// Appends the decimal digits of `n`.
fn push_dec(out: &mut Vec<char>, n: usize)
    ensures
        final(out)@ == old(out)@ + dec(n as nat),
{
    let mut t = String::new();
    push_usize(&mut t, n);
    let cs = chars_vec(t.as_str());
    let ghost start = out@;
    let mut k: usize = 0;
    while k < cs.len()
        invariant
            k <= cs@.len(),
            cs@ == dec(n as nat),
            out@ == start + cs@.subrange(0, k as int),
        decreases cs@.len() - k,
    {
        out.push(cs[k]);
        proof {
            assert(cs@.subrange(0, k + 1) =~= cs@.subrange(0, k as int).push(cs@[k as int]));
        }
        k = k + 1;
    }
    proof {
        assert(cs@.subrange(0, cs@.len() as int) =~= cs@);
    }
}

/// The position of the `]` that closes the `[` at `open`.
fn bracket_close_exec(x: &Vec<char>, open: usize) -> (r: Option<usize>)
    requires
        open < x@.len(),
        x@[open as int] == '[',
    ensures
        match bracket_close(x@, open as int, 0) {
            Some(c) => r == Some(c as usize),
            None => r is None,
        },
{
    proof {
        lemma_bracket_close(x@, open as int, 0);
    }
    let n = x.len();
    let mut depth: usize = 0;
    let mut k = open;
    while k < n
        invariant
            n == x@.len(),
            open <= k <= n,
            depth <= k,
            bracket_close(x@, k as int, depth as int) == bracket_close(x@, open as int, 0),
        decreases n - k,
    {
        let c = x[k];
        if c == '[' {
            depth = depth + 1;
        } else if c == ']' {
            if depth <= 1 {
                return Some(k);
            }
            depth = depth - 1;
        }
        k = k + 1;
    }
    None
}

/// The characters `x[lo..hi]`.
fn copy_range(x: &Vec<char>, lo: usize, hi: usize) -> (v: Vec<char>)
    requires
        lo <= hi <= x@.len(),
    ensures
        v@ == x@.subrange(lo as int, hi as int),
{
    let mut v: Vec<char> = Vec::new();
    let mut k = lo;
    while k < hi
        invariant
            lo <= k <= hi <= x@.len(),
            v@ == x@.subrange(lo as int, k as int),
        decreases hi - k,
    {
        v.push(x[k]);
        proof {
            assert(x@.subrange(lo as int, k + 1) =~= x@.subrange(lo as int, k as int).push(x@[k as int]));
        }
        k = k + 1;
    }
    v
}

/// The value of the expression `x` over `sg`, or `None`.
fn eval_vars(sg: &Semigroup, x: &Vec<char>) -> (r: Option<usize>)
    requires
        sg.wf(),
    ensures
        r == (match ev_expr(*sg, x@) {
            Ok(v) => Some(v),
            Err(_) => None::<usize>,
        }),
    decreases x@.len(),
{
    let n = x.len();
    let mut out: Vec<char> = Vec::new();
    let mut prev = Emitted::Nothing;
    let mut i: usize = 0;
    while i < n
        invariant
            n == x@.len(),
            i <= n,
            sg.wf(),
            match subst(*sg, x@, i as int, prev) {
                Ok(t) => subst(*sg, x@, 0, Emitted::Nothing) == Ok::<Seq<char>, Stop>(out@ + t),
                Err(e) => subst(*sg, x@, 0, Emitted::Nothing) == Err::<Seq<char>, Stop>(e),
            },
        decreases n - i,
    {
        let c = x[i];
        let ghost old_out = out@;
        let ghost old_i = i as int;
        let ghost old_prev = prev;
        let close_opt = if (c == 'a' || c == 'q') && i + 1 < n && x[i + 1] == '[' {
            bracket_close_exec(x, i + 1)
        } else {
            None
        };
        match close_opt {
            Some(close) => {
                proof {
                    lemma_bracket_close(x@, i + 1, 0);
                    assert(indexed_at(x@, old_i));
                    lemma_subst_indexed(*sg, x@, old_i, old_prev);
                    lemma_ev_expr(*sg, x@);
                }
                let inner = copy_range(x, i + 2, close);
                let idx = match eval_vars(sg, &inner) {
                    Some(v) => v,
                    None => {
                        return None;
                    },
                };
                let value = if c == 'a' {
                    if idx < sg.apery_set.len() {
                        sg.apery_set[idx]
                    } else {
                        0
                    }
                } else {
                    if idx < sg.gen_set.len() {
                        sg.gen_set[idx]
                    } else {
                        0
                    }
                };
                if needs_mul_exec(prev, Emitted::Var) {
                    out.push('*');
                }
                push_dec(&mut out, value);
                prev = Emitted::Var;
                i = close + 1;
                proof {
                    let p = star_if(needs_mul(old_prev, Emitted::Var)) + dec(value as nat);
                    assert(out@ =~= old_out + p);
                    lemma_step(*sg, x@, old_i, old_prev, i as int, prev, p, old_out);
                }
            },
            None => {
                proof {
                    assert(!indexed_at(x@, old_i));
                }
                match scalar_exec(sg, c) {
                    Some(v) => {
                        if needs_mul_exec(prev, Emitted::Var) {
                            out.push('*');
                        }
                        push_dec(&mut out, v);
                        prev = Emitted::Var;
                        i = i + 1;
                        proof {
                            let p = star_if(needs_mul(old_prev, Emitted::Var)) + dec(v as nat);
                            assert(out@ =~= old_out + p);
                            lemma_subst_scalar(*sg, x@, old_i, old_prev);
                            lemma_step(*sg, x@, old_i, old_prev, i as int, prev, p, old_out);
                        }
                    },
                    None => {
                        let k = if '0' <= c && c <= '9' {
                            Emitted::Digit
                        } else {
                            Emitted::Other
                        };
                        if needs_mul_exec(prev, k) {
                            out.push('*');
                        }
                        out.push(c);
                        prev = k;
                        i = i + 1;
                        proof {
                            let p = star_if(needs_mul(old_prev, k)) + seq![c];
                            assert(out@ =~= old_out + p);
                            lemma_subst_other(*sg, x@, old_i, old_prev);
                            lemma_step(*sg, x@, old_i, old_prev, i as int, prev, p, old_out);
                        }
                    },
                }
            },
        }
    }
    proof {
        lemma_subst_end(x@, *sg, i as int, prev);
        assert(out@ + Seq::<char>::empty() =~= out@);
        lemma_ev_expr(*sg, x@);
    }
    match eval_chars(&out) {
        Ok(v) => Some(v),
        Err(_) => None,
    }
}

/// The value of `expr` over the invariants of `sg` (see the module
/// documentation), or `None` when the expression or one of its index
/// expressions has no value, overflowing a `usize` among the reasons.
pub fn eval_expr(expr: &str, sg: &Semigroup) -> (r: Option<usize>)
    requires
        sg.wf(),
    ensures
        r == (match ev_expr(*sg, expr@) {
            Ok(v) => Some(v),
            Err(_) => None::<usize>,
        }),
{
    let x = chars_vec(expr);
    eval_vars(sg, &x)
}

} // verus!
