//! Reading a list of generators typed as text: numbers separated by commas.
//! Each piece is trimmed of white space and kept when it reads as a positive
//! `usize`; other pieces are skipped.
use vstd::prelude::*;
use crate::compute::{compute, compute_small};
use crate::out_file::{chars_vec, is_ws, is_ws_char, parse_usize, read_int};
use crate::semigroup::{small_enough, Semigroup};

verus! {

/// The end of the piece that starts at `i`: the next comma, or the end.
pub open spec fn piece_end(s: Seq<char>, i: int) -> int
    decreases s.len() - i,
{
    if 0 <= i < s.len() && s[i] != ',' {
        piece_end(s, i + 1)
    } else {
        i
    }
}

/// A piece ends at or after its start and at or before the end.
pub proof fn lemma_piece_end(s: Seq<char>, i: int)
    requires
        0 <= i <= s.len(),
    ensures
        i <= piece_end(s, i) <= s.len(),
        piece_end(s, i) < s.len() ==> s[piece_end(s, i)] == ',',
    decreases s.len() - i,
{
    if i < s.len() && s[i] != ',' {
        lemma_piece_end(s, i + 1);
    }
}

/// The first position in `[i, e)` that is not white space, or `e`.
pub open spec fn trim_start(s: Seq<char>, i: int, e: int) -> int
    decreases e - i,
{
    if i < e && is_ws(s[i]) {
        trim_start(s, i + 1, e)
    } else {
        i
    }
}

/// One past the last position in `[a, e)` that is not white space, or `a`.
pub open spec fn trim_end(s: Seq<char>, a: int, e: int) -> int
    decreases e - a,
{
    if a < e && is_ws(s[e - 1]) {
        trim_end(s, a, e - 1)
    } else {
        e
    }
}

/// Trimming stays inside the piece.
proof fn lemma_trim(s: Seq<char>, i: int, e: int)
    requires
        i <= e,
    ensures
        i <= trim_start(s, i, e) <= e,
        trim_start(s, i, e) <= trim_end(s, trim_start(s, i, e), e) <= e,
    decreases e - i,
{
    if i < e && is_ws(s[i]) {
        lemma_trim(s, i + 1, e);
    } else {
        lemma_trim_end(s, i, e);
    }
}

/// The end of the trimmed text lies between its start and `e`.
proof fn lemma_trim_end(s: Seq<char>, a: int, e: int)
    requires
        a <= e,
    ensures
        a <= trim_end(s, a, e) <= e,
    decreases e - a,
{
    if a < e && is_ws(s[e - 1]) {
        lemma_trim_end(s, a, e - 1);
    }
}

/// The piece `s[i..e]`, trimmed, as a `usize`.
pub open spec fn piece_value(s: Seq<char>, i: int, e: int) -> Option<usize> {
    let a = trim_start(s, i, e);
    parse_usize(s.subrange(a, trim_end(s, a, e)))
}

/// The positive numbers of the pieces from position `i` on, in order.
pub open spec fn gens_from(s: Seq<char>, i: int) -> Seq<usize>
    decreases s.len() + 1 - i,
{
    if i < 0 || i > s.len() {
        Seq::empty()
    } else {
        let e = piece_end(s, i);
        proof {
            lemma_piece_end(s, i);
        }
        let rest = if e < s.len() { gens_from(s, e + 1) } else { Seq::empty() };
        match piece_value(s, i, e) {
            Some(n) => if n > 0 { seq![n] + rest } else { rest },
            None => rest,
        }
    }
}

/// The positive numbers of the comma-separated pieces of `input`.
pub open spec fn parsed_generators(input: Seq<char>) -> Seq<usize> {
    gens_from(input, 0)
}

/// The positive numbers of the comma-separated pieces of `input`, in order.
pub fn parse_generators(input: &str) -> (v: Vec<usize>)
    ensures
        v@ == parsed_generators(input@),
{
    let s = chars_vec(input);
    let n = s.len();
    let mut out: Vec<usize> = Vec::new();
    let mut i: usize = 0;
    let mut done = false;
    while !done
        invariant
            n == s@.len(),
            i <= n,
            done ==> out@ == gens_from(s@, 0),
            !done ==> out@ + gens_from(s@, i as int) == gens_from(s@, 0),
        decreases n + 1 - i, if done { 0int } else { 1int },
    {
        proof {
            lemma_piece_end(s@, i as int);
        }
        let mut e = i;
        while e < n && s[e] != ','
            invariant
                i <= e <= n,
                n == s@.len(),
                piece_end(s@, e as int) == piece_end(s@, i as int),
            decreases n - e,
        {
            e = e + 1;
        }
        let mut a = i;
        while a < e && is_ws_char(s[a])
            invariant
                i <= a <= e <= n,
                n == s@.len(),
                trim_start(s@, a as int, e as int) == trim_start(s@, i as int, e as int),
            decreases e - a,
        {
            a = a + 1;
        }
        let mut b = e;
        while a < b && is_ws_char(s[b - 1])
            invariant
                a <= b <= e <= n,
                n == s@.len(),
                trim_end(s@, a as int, b as int) == trim_end(s@, a as int, e as int),
            decreases b - a,
        {
            b = b - 1;
        }
        let ghost old_out = out@;
        let ghost rest = if e < n { gens_from(s@, e + 1) } else { Seq::<usize>::empty() };
        match read_int(&s, a, b, false, 0, usize::MAX as i128) {
            Some(x) => {
                if x > 0 {
                    out.push(x as usize);
                    proof {
                        assert(old_out + (seq![x as usize] + rest) =~= out@ + rest);
                    }
                }
            },
            None => {},
        }
        proof {
            assert(piece_value(s@, i as int, e as int) == parse_usize(s@.subrange(a as int, b as int)));
            assert(gens_from(s@, i as int) == if piece_value(s@, i as int, e as int) matches Some(v) && v > 0 {
                seq![piece_value(s@, i as int, e as int)->Some_0] + rest
            } else {
                rest
            });
        }
        if e < n {
            i = e + 1;
        } else {
            done = true;
            proof {
                assert(out@ + Seq::<usize>::empty() =~= out@);
            }
        }
    }
    out
}

/// The semigroup generated by the positive numbers of the comma-separated
/// `input`, or `None` when there is none.
pub fn js_compute(input: &str) -> (r: Option<Semigroup>)
    requires
        forall|k: int| 0 <= k < parsed_generators(input@).len() ==> small_enough(
            #[trigger] parsed_generators(input@)[k] as int,
        ),
    ensures
        parsed_generators(input@).len() == 0 <==> r is None,
        r matches Some(s) ==> s.wf() && forall|x: int| #[trigger] s.contains(x) == crate::generated::in_gen(
            crate::compute::reduced(parsed_generators(input@)),
            x,
        ),
{
    let numbers = parse_generators(input);
    if numbers.len() == 0 {
        return None;
    }
    proof {
        assert forall|k: int| 0 <= k < numbers@.len() implies #[trigger] numbers@[k] >= 1 && small_enough(
            numbers@[k] as int,
        ) by {
            lemma_positive(input@, 0, k);
        }
    }
    Some(compute_small(numbers.as_slice()))
}

/// The parsed numbers are positive.
proof fn lemma_positive(s: Seq<char>, i: int, k: int)
    requires
        0 <= k < gens_from(s, i).len(),
    ensures
        gens_from(s, i)[k] > 0,
    decreases s.len() + 1 - i,
{
    if 0 <= i <= s.len() {
        lemma_piece_end(s, i);
        let e = piece_end(s, i);
        let rest = if e < s.len() { gens_from(s, e + 1) } else { Seq::empty() };
        match piece_value(s, i, e) {
            Some(n) => {
                if n > 0 && k > 0 {
                    assert(gens_from(s, i) == seq![n] + rest);
                    lemma_positive(s, e + 1, k - 1);
                } else if n == 0 {
                    lemma_positive(s, e + 1, k);
                }
            },
            None => {
                lemma_positive(s, e + 1, k);
            },
        }
    }
}

} // verus!
