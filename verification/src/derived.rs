//! The invariants derived from the Apéry set and the minimal generators of a
//! numerical semigroup: reflected gaps, pseudo-Frobenius numbers, large gaps,
//! fundamental gaps and the like.
use vstd::prelude::*;
use crate::generated::{count_upto, filter_upto, in_gen, is_atom};
use crate::semigroup::{
    apery_member, apery_min, core_ok, deep_spec, fundamental_pred, large_gap_pred, lemma_member, pf_pred,
    reflected_apery_pred, reflected_pred, small_gen_pred,
};

verus! {

/// Every atom is at most `f + m`: an atom other than `m` is the least element
/// of its residue class.
pub proof fn lemma_atom_bound(gens: Seq<usize>, m: int, f: int, apery: Seq<usize>, a: int)
    requires
        core_ok(m, f, gens, apery),
        is_atom(gens, a),
    ensures
        a <= f + m,
{
    let r = a % m;
    assert(0 <= r < m) by (nonlinear_arith) requires m >= 1, r == a % m;
    let w = apery[r] as int;
    assert(apery_min(gens, m, w, r));
    assert(w <= a);
    if w < a {
        assert((a - w) % m == 0) by {
            vstd::arithmetic::div_mod::lemma_sub_mod_noop(a, w, m);
            assert(0int % m == 0);
        }
        crate::compute::lemma_multiple_in(gens, m, a - w);
        if w > 0 {
            assert(in_gen(gens, w) && in_gen(gens, a - w));
            assert(false);
        } else {
            // a ≡ 0 (mod m): a = m + (a − m) unless a = m
            if a > m {
                assert((a - m) % m == 0) by {
                    vstd::arithmetic::div_mod::lemma_mod_sub_multiples_vanish(a, m);
                }
                crate::compute::lemma_multiple_in(gens, m, a - m);
                crate::generated::lemma_gen_in(gens, 0);
                assert(in_gen(gens, m) && in_gen(gens, a - m));
                assert(false);
            }
        }
    }
}

/// Number of reflected gaps.
pub fn count_reflected(apery: &Vec<usize>, m: usize, f: usize, Ghost(gens): Ghost<Seq<usize>>) -> (c: usize)
    requires
        core_ok(m as int, f as int, gens, apery@),
    ensures
        c == count_upto(reflected_pred(gens, f as int), f as int),
{
    let mut c: usize = 0;
    let mut x: usize = 0;
    while x < f
        invariant
            core_ok(m as int, f as int, gens, apery@),
            x <= f,
            c <= x,
            c == count_upto(reflected_pred(gens, f as int), x as int),
        decreases f - x,
    {
        proof {
            lemma_member(gens, m as int, f as int, apery@, x as int);
            lemma_member(gens, m as int, f as int, apery@, f - x);
        }
        if !apery_member(apery, m, x) && !apery_member(apery, m, f - x) {
            c = c + 1;
        }
        x = x + 1;
    }
    c
}

/// Number of gaps in the window `(f − m, f)`.
pub fn count_large_gaps(apery: &Vec<usize>, m: usize, f: usize, Ghost(gens): Ghost<Seq<usize>>) -> (c: usize)
    requires
        core_ok(m as int, f as int, gens, apery@),
    ensures
        c == count_upto(large_gap_pred(gens, m as int, f as int), f as int),
{
    let mut c: usize = 0;
    let mut x: usize = 0;
    while x < f
        invariant
            core_ok(m as int, f as int, gens, apery@),
            x <= f,
            c <= x,
            c == count_upto(large_gap_pred(gens, m as int, f as int), x as int),
        decreases f - x,
    {
        proof {
            lemma_member(gens, m as int, f as int, apery@, x as int);
        }
        if f < x + m && !apery_member(apery, m, x) {
            c = c + 1;
        }
        x = x + 1;
    }
    c
}

/// Number of fundamental gaps in `0..=f`.
pub fn count_fundamental(apery: &Vec<usize>, m: usize, f: usize, Ghost(gens): Ghost<Seq<usize>>) -> (c: usize)
    requires
        core_ok(m as int, f as int, gens, apery@),
    ensures
        c == count_upto(fundamental_pred(gens), f + 1),
{
    let mut c: usize = 0;
    let mut x: usize = 0;
    proof {
        assert(3 * f + 3 <= usize::MAX) by (nonlinear_arith)
            requires 4 * (m * (f + m)) <= usize::MAX, m >= 1;
    }
    while x <= f
        invariant
            core_ok(m as int, f as int, gens, apery@),
            3 * f + 3 <= usize::MAX,
            x <= f + 1,
            c <= x,
            c == count_upto(fundamental_pred(gens), x as int),
        decreases f + 1 - x,
    {
        proof {
            lemma_member(gens, m as int, f as int, apery@, x as int);
            lemma_member(gens, m as int, f as int, apery@, 2 * x);
            lemma_member(gens, m as int, f as int, apery@, 3 * x);
        }
        if !apery_member(apery, m, x) && apery_member(apery, m, 2 * x) && apery_member(apery, m, 3 * x) {
            c = c + 1;
        }
        x = x + 1;
    }
    c
}

/// Number of minimal generators below `f − m`.
pub fn count_small_gens(gens: &Vec<usize>, m: usize, f: usize) -> (c: usize)
    requires
        4 * (m * (f + m)) <= usize::MAX,
        forall|k: int| 0 <= k < gens@.len() ==> #[trigger] gens@[k] <= f + m,
    ensures
        c == count_upto(small_gen_pred(gens@, m as int, f as int), gens@.len() as int),
{
    let mut c: usize = 0;
    let mut k: usize = 0;
    proof {
        assert(f + 2 * m <= usize::MAX) by (nonlinear_arith)
            requires 4 * (m * (f + m)) <= usize::MAX;
    }
    while k < gens.len()
        invariant
            f + 2 * m <= usize::MAX,
            forall|k: int| 0 <= k < gens@.len() ==> #[trigger] gens@[k] <= f + m,
            k <= gens@.len(),
            c <= k,
            c == count_upto(small_gen_pred(gens@, m as int, f as int), k as int),
        decreases gens@.len() - k,
    {
        if gens[k] + m < f {
            c = c + 1;
        }
        k = k + 1;
    }
    c
}

/// Number of Apéry elements `w ≥ m` with `w − m` a reflected gap.
pub fn count_reflected_apery(apery: &Vec<usize>, m: usize, f: usize, Ghost(gens): Ghost<Seq<usize>>) -> (c: usize)
    requires
        core_ok(m as int, f as int, gens, apery@),
    ensures
        c == count_upto(reflected_apery_pred(gens, apery@, m as int, f as int), m as int),
{
    let mut c: usize = 0;
    let mut i: usize = 0;
    while i < m
        invariant
            core_ok(m as int, f as int, gens, apery@),
            i <= m,
            c <= i,
            c == count_upto(reflected_apery_pred(gens, apery@, m as int, f as int), i as int),
        decreases m - i,
    {
        let w = apery[i];
        if w >= m {
            let x = w - m;
            proof {
                lemma_member(gens, m as int, f as int, apery@, x as int);
            }
            if x < f {
                proof {
                    lemma_member(gens, m as int, f as int, apery@, f - x);
                }
                if !apery_member(apery, m, x) && !apery_member(apery, m, f - x) {
                    c = c + 1;
                }
            }
        }
        i = i + 1;
    }
    c
}

/// Whether every Apéry element `w_i`, `0 < i < m`, exceeds `m + i`.
pub fn is_deep(apery: &Vec<usize>, m: usize, f: usize, Ghost(gens): Ghost<Seq<usize>>) -> (d: bool)
    requires
        core_ok(m as int, f as int, gens, apery@),
    ensures
        d == deep_spec(apery@, m as int),
{
    let mut i: usize = 1;
    proof {
        assert(2 * m <= usize::MAX) by (nonlinear_arith) requires 4 * (m * (f + m)) <= usize::MAX, m >= 1;
    }
    while i < m
        invariant
            apery@.len() == m,
            2 * m <= usize::MAX,
            1 <= i,
            i <= m || m == 1,
            forall|j: int| 0 < j < i && j < m ==> #[trigger] apery@[j] > m + j,
        decreases m - i,
    {
        if apery[i] <= m + i {
            return false;
        }
        i = i + 1;
    }
    true
}

/// The pseudo-Frobenius numbers in increasing order.
pub fn collect_pf(apery: &Vec<usize>, m: usize, f: usize, gens: &Vec<usize>) -> (pf: Vec<usize>)
    requires
        core_ok(m as int, f as int, gens@, apery@),
    ensures
        pf@ == filter_upto(pf_pred(gens@), f + 1),
{
    let ghost g = gens@;
    proof {
        assert forall|k: int| 0 <= k < g.len() implies #[trigger] g[k] <= f + m by {
            lemma_atom_bound(g, m as int, f as int, apery@, g[k] as int);
        }
        assert(2 * f + m <= usize::MAX) by (nonlinear_arith)
            requires 4 * (m * (f + m)) <= usize::MAX, m >= 1;
    }
    let mut pf: Vec<usize> = Vec::new();
    let mut x: usize = 0;
    while x <= f
        invariant
            core_ok(m as int, f as int, g, apery@),
            g == gens@,
            forall|k: int| 0 <= k < g.len() ==> #[trigger] g[k] <= f + m,
            2 * f + m <= usize::MAX,
            x <= f + 1,
            pf@ == filter_upto(pf_pred(g), x as int),
        decreases f + 1 - x,
    {
        proof {
            lemma_member(g, m as int, f as int, apery@, x as int);
        }
        let mut ok = !apery_member(apery, m, x);
        if ok {
            let mut k: usize = 0;
            while k < gens.len()
                invariant
                    core_ok(m as int, f as int, g, apery@),
                    g == gens@,
                    forall|k: int| 0 <= k < g.len() ==> #[trigger] g[k] <= f + m,
                    2 * f + m <= usize::MAX,
                    x <= f,
                    k <= g.len(),
                    ok ==> forall|j: int| 0 <= j < k ==> in_gen(g, x + #[trigger] g[j]),
                    !ok ==> exists|j: int| 0 <= j < g.len() && !in_gen(g, x + #[trigger] g[j]),
                decreases g.len() - k,
            {
                let y = x + gens[k];
                proof {
                    lemma_member(g, m as int, f as int, apery@, y as int);
                }
                if !apery_member(apery, m, y) {
                    ok = false;
                }
                k = k + 1;
            }
        }
        proof {
            assert(ok == pf_pred(g)(x as int));
        }
        if ok {
            pf.push(x);
        }
        x = x + 1;
    }
    pf
}

} // verus!
