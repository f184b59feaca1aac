//! The descent of a semigroup with `f ≥ m` is a descent image: it has a
//! minimal generator equal to its own `f + m` or lying in `(f − m, f)`.
//! Three cases: descent adjoins the Frobenius number (which becomes `f + m`
//! of the result), or `y = w − m` for the largest Apéry element `w` in
//! `(f, f + m)`, with `y` above `m` (then `y` lies in the new window) or
//! below `m` (then the result is nearly ordinary and its multiplicity or
//! `2y − 1` is the witness).
use vstd::prelude::*;
use crate::compute::reduced;
use crate::generated::{in_gen, is_atom, lemma_add_gen, lemma_closed_add, lemma_gen_in, lemma_in_gen_subset, lemma_in_gen_unfold, lemma_positive_ge, seq_has};
use crate::manipulators::{descent_list, generated_by, lemma_above_frobenius, lemma_in_gen_reduced, max_apery_in};
use crate::semigroup::{apery_min, Semigroup};

verus! {

/// Appending `y` to a list adds no element below `y`.
pub(crate) proof fn lemma_in_gen_below_new(a: Seq<usize>, y: usize, x: int)
    requires
        in_gen(a.push(y), x),
        x < y,
    ensures
        in_gen(a, x),
    decreases x,
{
    let b = a.push(y);
    if x > 0 {
        lemma_in_gen_unfold(b, x);
        let i = choose|i: int| 0 <= i < b.len() && 0 < b[i] <= x && #[trigger] in_gen(b, x - b[i]);
        assert(i < a.len());
        assert(b[i] == a[i]);
        lemma_in_gen_below_new(a, y, x - a[i]);
        lemma_add_gen(a, x - a[i], i);
    }
}

/// The generators of a semigroup with one more positive entry have gcd 1,
/// so the list is its own reduced form.
pub(crate) proof fn lemma_reduced_push(t: Semigroup, y: usize)
    requires
        t.wf(),
        y >= 1,
    ensures
        reduced(t.gen_set@.push(y)) == t.gen_set@.push(y),
{
    let a = t.gen_set@;
    let l = a.push(y);
    let n = l.len() as int;
    let f = t.f as int;
    assert forall|i: int| 0 <= i < l.len() implies #[trigger] l[i] >= 1 by {
        if i < a.len() {
            assert(a[0] == t.m);
            if i > 0 {
                assert(a[0] < a[i]);
            }
        }
    }
    lemma_above_frobenius(t, f + 1);
    lemma_above_frobenius(t, f + 2);
    assert forall|i: int| 0 <= i < a.len() && a[i] > 0 implies #[trigger] l.contains(a[i]) by {
        assert(l[i] == a[i]);
    }
    lemma_in_gen_subset(a, l, f + 1);
    lemma_in_gen_subset(a, l, f + 2);
    lemma_in_gen_reduced(l, f + 1);
    lemma_in_gen_reduced(l, f + 2);
    crate::compute::lemma_gcd_seq_pos(l, n);
    let d = crate::arith::gcd_seq(l, n) as int;
    vstd::arithmetic::div_mod::lemma_fundamental_div_mod(f + 1, d);
    vstd::arithmetic::div_mod::lemma_fundamental_div_mod(f + 2, d);
    let q1 = (f + 1) / d;
    let q2 = (f + 2) / d;
    assert(d * (q2 - q1) == 1) by (nonlinear_arith) requires f + 1 == d * q1, f + 2 == d * q2;
    assert(d == 1) by (nonlinear_arith) requires d * (q2 - q1) == 1, d >= 1;
    assert forall|k: int| 0 <= k < n implies #[trigger] reduced(l)[k] == l[k] by {
        assert((l[k] as nat) / 1 == l[k]);
    }
    assert(reduced(l) =~= l);
}

/// `max_apery_in` is 0 only when no Apéry element lies in the window.
proof fn lemma_max_apery_none(apery: Seq<usize>, lo: int, hi: int, k: int, j: int)
    requires
        lo >= 0,
        max_apery_in(apery, lo, hi, k) == 0,
        0 <= j < k,
    ensures
        !(lo < apery[j] < hi),
    decreases k,
{
    let prev = max_apery_in(apery, lo, hi, k - 1);
    let w = apery[k - 1] as int;
    if lo < w < hi && w > prev {
        assert(false);
    }
    if j < k - 1 {
        if prev != 0 {
            assert(max_apery_in(apery, lo, hi, k) != 0);
        }
        lemma_max_apery_none(apery, lo, hi, k - 1, j);
    } else if prev == 0 {
        assert(!(lo < w < hi));
    } else {
        assert(false);
    }
}

/// When no Apéry element of `t` lies strictly between `f` and `f + m`,
/// descent adjoins `f`: the result keeps the multiplicity `m`, has Frobenius
/// number `f − m`, and holds `f` among its minimal generators, which is then
/// `f + m` of the result. So the result is a descent image.
pub proof fn lemma_descent_adjoining_f(t: Semigroup, r: Semigroup)
    requires
        t.wf(),
        t.f >= t.m,
        max_apery_in(t.apery_set@, t.f as int, t.f + t.m, t.m as int) == 0,
        generated_by(r, descent_list(t)),
    ensures
        r.m == t.m,
        r.f + r.m == t.f,
        seq_has(r.gen_set@, t.f as int),
        exists|k: int| 0 <= k < r.gen_set@.len() && {
            let g = #[trigger] r.gen_set@[k];
            g == r.f + r.m || (g < r.f && g + r.m > r.f)
        },
{
    let m = t.m as int;
    let f = t.f as int;
    let a = t.gen_set@;
    let l = a.push(t.f);
    let rg = r.gen_set@;
    assert(descent_list(t) == l);
    // f is a gap of t lying above m.
    let r0 = choose|r0: int| 0 <= r0 < m && #[trigger] t.apery_set@[r0] == f + m;
    assert(apery_min(a, m, t.apery_set@[r0] as int, r0));
    vstd::arithmetic::div_mod::lemma_mod_add_multiples_vanish(f, m);
    assert(r0 == f % m);
    assert(!in_gen(a, f));
    lemma_gen_in(a, 0);
    assert(f > m);
    assert forall|i: int| 0 <= i < l.len() implies #[trigger] l[i] >= m by {
        if 0 < i < a.len() {
            assert(a[0] < a[i]);
        }
    }
    lemma_reduced_push(t, t.f);
    assert forall|x: int| #[trigger] in_gen(rg, x) == in_gen(l, x) by {
        assert(r.contains(x) == in_gen(reduced(l), x));
    }
    assert forall|i: int| 0 <= i < a.len() && a[i] > 0 implies #[trigger] l.contains(a[i]) by {
        assert(l[i] == a[i]);
    }
    // The multiplicity stays m.
    lemma_in_gen_subset(a, l, m);
    assert(in_gen(rg, m));
    assert forall|i: int| 0 <= i < rg.len() implies #[trigger] rg[i] >= r.m by {
        if i > 0 {
            assert(rg[0] < rg[i]);
        }
    }
    lemma_positive_ge(rg, r.m as int, m);
    lemma_gen_in(rg, 0);
    assert(in_gen(l, r.m as int));
    lemma_positive_ge(l, m, r.m as int);
    assert(r.m == t.m);
    // The least element of r in the class of f is f itself.
    let rf = f % m;
    assert(0 <= rf < m) by (nonlinear_arith) requires m >= 1, rf == f % m;
    lemma_gen_in(l, a.len() as int);
    assert(in_gen(rg, f));
    let w = r.apery_set@[rf] as int;
    assert(apery_min(rg, m, w, rf));
    if w < f {
        assert(in_gen(l, w));
        lemma_in_gen_below_new(a, t.f, w);
        assert(apery_min(a, m, f + m, rf));
        assert(false);
    }
    assert(w == f);
    assert(r.apery_set@[rf] <= r.f + r.m);
    // No class holds a larger least element.
    let r1 = choose|r1: int| 0 <= r1 < m && #[trigger] r.apery_set@[r1] == r.f + r.m;
    if r1 != rf {
        let v = t.apery_set@[r1] as int;
        assert(apery_min(a, m, v, r1));
        assert(v <= f + m);
        if v == f + m {
            assert(r1 == rf);
        }
        lemma_max_apery_none(t.apery_set@, f, f + m, m, r1);
        assert(v != f);
        assert(v < f);
        lemma_in_gen_subset(a, l, v);
        assert(in_gen(rg, v));
        assert(apery_min(rg, m, r.apery_set@[r1] as int, r1));
        assert(false);
    }
    assert(r.f + r.m == t.f);
    // f is an atom of r, hence one of its minimal generators.
    assert forall|x: int| 0 < x < f implies !(#[trigger] in_gen(rg, x) && in_gen(rg, f - x)) by {
        if in_gen(rg, x) && in_gen(rg, f - x) {
            lemma_in_gen_below_new(a, t.f, x);
            lemma_in_gen_below_new(a, t.f, f - x);
            lemma_closed_add(a, x, f - x);
        }
    }
    assert(is_atom(rg, f));
    assert(seq_has(rg, f));
    let k = choose|k: int| 0 <= k < rg.len() && rg[k] == f;
    assert(rg[k] == r.f + r.m);
}


/// `max_apery_in` is 0 or one of the Apéry elements inside the window.
pub(crate) proof fn lemma_max_apery_some(apery: Seq<usize>, lo: int, hi: int, k: int)
    requires
        0 <= k <= apery.len(),
    ensures
        max_apery_in(apery, lo, hi, k) == 0 || exists|j: int| 0 <= j < k && {
            let w = #[trigger] apery[j] as int;
            w == max_apery_in(apery, lo, hi, k) && lo < w < hi
        },
    decreases k,
{
    if k > 0 {
        lemma_max_apery_some(apery, lo, hi, k - 1);
        let prev = max_apery_in(apery, lo, hi, k - 1);
        if prev != 0 && max_apery_in(apery, lo, hi, k) == prev {
            let j = choose|j: int| 0 <= j < k - 1 && {
                let w = #[trigger] apery[j] as int;
                w == prev && lo < w < hi
            };
            assert(apery[j] as int == max_apery_in(apery, lo, hi, k));
        }
        if max_apery_in(apery, lo, hi, k) != prev {
            assert(apery[k - 1] as int == max_apery_in(apery, lo, hi, k));
        }
    }
}

/// An element of `⟨a, y⟩` lies in `⟨a⟩`, or stays in `⟨a, y⟩` after taking
/// one `y` away.
pub(crate) proof fn lemma_in_gen_push_split(a: Seq<usize>, y: usize, x: int)
    requires
        in_gen(a.push(y), x),
    ensures
        in_gen(a, x) || (x >= y && in_gen(a.push(y), x - y)),
    decreases x,
{
    let b = a.push(y);
    if x > 0 {
        lemma_in_gen_unfold(b, x);
        let i = choose|i: int| 0 <= i < b.len() && 0 < b[i] <= x && #[trigger] in_gen(b, x - b[i]);
        if i < a.len() {
            assert(b[i] == a[i]);
            lemma_in_gen_push_split(a, y, x - a[i]);
            if in_gen(a, x - a[i]) {
                lemma_add_gen(a, x - a[i], i);
            } else {
                lemma_add_gen(b, x - a[i] - y, i);
                assert(x - a[i] - y + a[i] == x - y);
            }
        }
    }
}

/// When some Apéry element `x` of `t` lies strictly between `f` and `f + m`
/// and the largest one, less `m`, still exceeds `m`, descent adjoins
/// `y = x − m`: the result keeps `m` and `f`, and `y` is one of its minimal
/// generators, with `f − m < y < f`. So the result is a descent image.
pub proof fn lemma_descent_adjoining_shifted(t: Semigroup, r: Semigroup)
    requires
        t.wf(),
        t.f >= t.m,
        max_apery_in(t.apery_set@, t.f as int, t.f + t.m, t.m as int) > 2 * t.m,
        generated_by(r, descent_list(t)),
    ensures
        r.m == t.m,
        r.f == t.f,
        seq_has(r.gen_set@, max_apery_in(t.apery_set@, t.f as int, t.f + t.m, t.m as int) - t.m),
        exists|k: int| 0 <= k < r.gen_set@.len() && {
            let g = #[trigger] r.gen_set@[k];
            g == r.f + r.m || (g < r.f && g + r.m > r.f)
        },
{
    let m = t.m as int;
    let f = t.f as int;
    let a = t.gen_set@;
    let top = max_apery_in(t.apery_set@, f, f + m, m);
    let y = top - m;
    let l = a.push(y as usize);
    let rg = r.gen_set@;
    assert(descent_list(t) == l);
    lemma_max_apery_some(t.apery_set@, f, f + m, m);
    let j = choose|j: int| 0 <= j < m && {
        let w = #[trigger] t.apery_set@[j] as int;
        w == top && f < w < f + m
    };
    // y is a gap of t between f − m and f.
    assert(apery_min(a, m, top, j));
    vstd::arithmetic::div_mod::lemma_mod_add_multiples_vanish(y, m);
    assert(!in_gen(a, y));
    assert(m < y < f);
    assert forall|i: int| 0 <= i < l.len() implies #[trigger] l[i] >= m by {
        if 0 < i < a.len() {
            assert(a[0] < a[i]);
        }
    }
    lemma_reduced_push(t, y as usize);
    assert forall|x: int| #[trigger] in_gen(rg, x) == in_gen(l, x) by {
        assert(r.contains(x) == in_gen(reduced(l), x));
    }
    assert forall|i: int| 0 <= i < a.len() && a[i] > 0 implies #[trigger] l.contains(a[i]) by {
        assert(l[i] == a[i]);
    }
    // The multiplicity stays m.
    lemma_gen_in(a, 0);
    lemma_in_gen_subset(a, l, m);
    assert(in_gen(rg, m));
    assert forall|i: int| 0 <= i < rg.len() implies #[trigger] rg[i] >= r.m by {
        if i > 0 {
            assert(rg[0] < rg[i]);
        }
    }
    lemma_positive_ge(rg, r.m as int, m);
    lemma_gen_in(rg, 0);
    assert(in_gen(l, r.m as int));
    lemma_positive_ge(l, m, r.m as int);
    assert(r.m == t.m);
    // f stays a gap: a use of y would leave f − y, a positive element below m.
    let r0 = choose|r0: int| 0 <= r0 < m && #[trigger] t.apery_set@[r0] == f + m;
    assert(apery_min(a, m, t.apery_set@[r0] as int, r0));
    vstd::arithmetic::div_mod::lemma_mod_add_multiples_vanish(f, m);
    assert(!in_gen(a, f));
    if in_gen(l, f) {
        lemma_in_gen_push_split(a, y as usize, f);
        lemma_in_gen_below_new(a, y as usize, f - y);
        lemma_positive_ge(a, m, f - y);
        assert(false);
    }
    // So the Frobenius number stays f.
    if r.f < f {
        lemma_above_frobenius(r, f);
        assert(false);
    }
    let r1 = choose|r1: int| 0 <= r1 < m && #[trigger] r.apery_set@[r1] == r.f + r.m;
    assert(apery_min(rg, m, r.apery_set@[r1] as int, r1));
    vstd::arithmetic::div_mod::lemma_mod_add_multiples_vanish(r.f as int, m);
    assert(!in_gen(rg, r.f as int));
    if r.f > f {
        lemma_above_frobenius(t, r.f as int);
        lemma_in_gen_subset(a, l, r.f as int);
        assert(false);
    }
    assert(r.f == t.f);
    // y is an atom of r, hence one of its minimal generators.
    lemma_gen_in(l, a.len() as int);
    assert(in_gen(rg, y));
    assert forall|x: int| 0 < x < y implies !(#[trigger] in_gen(rg, x) && in_gen(rg, y - x)) by {
        if in_gen(rg, x) && in_gen(rg, y - x) {
            lemma_in_gen_below_new(a, y as usize, x);
            lemma_in_gen_below_new(a, y as usize, y - x);
            lemma_closed_add(a, x, y - x);
        }
    }
    assert(is_atom(rg, y));
    assert(seq_has(rg, y));
    let k = choose|k: int| 0 <= k < rg.len() && rg[k] == y;
    assert(rg[k] < r.f && rg[k] + r.m > r.f);
}


/// `max_apery_in` is at least every Apéry element inside the window.
proof fn lemma_max_apery_ge(apery: Seq<usize>, lo: int, hi: int, k: int, j: int)
    requires
        0 <= j < k,
        lo < apery[j] < hi,
    ensures
        max_apery_in(apery, lo, hi, k) >= apery[j],
    decreases k,
{
    if j < k - 1 {
        lemma_max_apery_ge(apery, lo, hi, k - 1, j);
    }
}

/// When the largest Apéry element `w` of `t` in `(f, f + m)` is at most
/// `2m`, descent adjoins `y = w − m < m`. Every number in `(y, f)` already
/// lies in `t`, so the result is `{0} ∪ [y, ∞)` minus at most `f`:
/// if `f` stays a gap, it is the Frobenius number, `f < 2y`, and the new
/// multiplicity `y` lies in `(f − y, f)`; otherwise the Frobenius number is
/// `y − 1` and `2y − 1 = f + m` of the result is a minimal generator. Either
/// way the result is a descent image.
pub proof fn lemma_descent_adjoining_small(t: Semigroup, r: Semigroup)
    requires
        t.wf(),
        t.f >= t.m,
        max_apery_in(t.apery_set@, t.f as int, t.f + t.m, t.m as int) > 0,
        max_apery_in(t.apery_set@, t.f as int, t.f + t.m, t.m as int) <= 2 * t.m,
        generated_by(r, descent_list(t)),
    ensures
        r.m == max_apery_in(t.apery_set@, t.f as int, t.f + t.m, t.m as int) - t.m,
        exists|k: int| 0 <= k < r.gen_set@.len() && {
            let g = #[trigger] r.gen_set@[k];
            g == r.f + r.m || (g < r.f && g + r.m > r.f)
        },
{
    let m = t.m as int;
    let f = t.f as int;
    let a = t.gen_set@;
    let top = max_apery_in(t.apery_set@, f, f + m, m);
    let y = top - m;
    let l = a.push(y as usize);
    let rg = r.gen_set@;
    assert(descent_list(t) == l);
    lemma_max_apery_some(t.apery_set@, f, f + m, m);
    let j = choose|j: int| 0 <= j < m && {
        let w = #[trigger] t.apery_set@[j] as int;
        w == top && f < w < f + m
    };
    assert(apery_min(a, m, top, j));
    vstd::arithmetic::div_mod::lemma_mod_add_multiples_vanish(y, m);
    assert(!in_gen(a, y));
    lemma_gen_in(a, 0);
    assert(y != m);
    assert(f - m < y < m);
    // f is a gap of t, and f > m.
    let r0 = choose|r0: int| 0 <= r0 < m && #[trigger] t.apery_set@[r0] == f + m;
    assert(apery_min(a, m, t.apery_set@[r0] as int, r0));
    vstd::arithmetic::div_mod::lemma_mod_add_multiples_vanish(f, m);
    assert(!in_gen(a, f));
    assert(f > m);
    assert(y >= 2);
    assert forall|i: int| 0 <= i < a.len() implies #[trigger] a[i] >= m by {
        if i > 0 {
            assert(a[0] < a[i]);
        }
    }
    // Every number strictly between y and f lies in t.
    assert forall|z: int| y < z < f implies #[trigger] in_gen(a, z) by {
        lemma_above_frobenius(t, z + m);
        let c = z % m;
        assert(0 <= c < m) by (nonlinear_arith) requires m >= 1, c == z % m;
        let w = t.apery_set@[c] as int;
        assert(apery_min(a, m, w, c));
        vstd::arithmetic::div_mod::lemma_mod_add_multiples_vanish(z, m);
        assert(w <= z + m);
        if !in_gen(a, z) {
            if w <= z {
                crate::compute::lemma_same_class_above(a, m, w, z);
            }
            assert(w > z);
            assert((w - z) % m == 0) by {
                vstd::arithmetic::div_mod::lemma_sub_mod_noop(w, z, m);
                assert(0int % m == 0);
            }
            assert(w - z >= m) by (nonlinear_arith) requires (w - z) % m == 0, w - z > 0, m >= 1;
            lemma_max_apery_ge(t.apery_set@, f, f + m, m, c);
            assert(false);
        }
    }
    lemma_reduced_push(t, y as usize);
    assert forall|x: int| #[trigger] in_gen(rg, x) == in_gen(l, x) by {
        assert(r.contains(x) == in_gen(reduced(l), x));
    }
    assert forall|i: int| 0 <= i < a.len() && a[i] > 0 implies #[trigger] l.contains(a[i]) by {
        assert(l[i] == a[i]);
    }
    let iy = a.len() as int;
    lemma_gen_in(l, iy);
    // Every number from y on, but possibly f, lies in r.
    assert forall|x: int| x >= y && x != f implies #[trigger] in_gen(l, x) by {
        if x > f {
            lemma_above_frobenius(t, x);
            lemma_in_gen_subset(a, l, x);
        } else if x > y {
            lemma_in_gen_subset(a, l, x);
        }
    }
    // The multiplicity is y.
    assert forall|i: int| 0 <= i < rg.len() implies #[trigger] rg[i] >= r.m by {
        if i > 0 {
            assert(rg[0] < rg[i]);
        }
    }
    lemma_positive_ge(rg, r.m as int, y);
    lemma_gen_in(rg, 0);
    if r.m < y {
        lemma_in_gen_below_new(a, y as usize, r.m as int);
        lemma_positive_ge(a, m, r.m as int);
        assert(false);
    }
    assert(r.m == y);
    // The Frobenius number of r is a gap of r.
    let r1 = choose|r1: int| 0 <= r1 < r.m && #[trigger] r.apery_set@[r1] == r.f + r.m;
    assert(apery_min(rg, r.m as int, r.apery_set@[r1] as int, r1));
    vstd::arithmetic::div_mod::lemma_mod_add_multiples_vanish(r.f as int, r.m as int);
    assert(!in_gen(rg, r.f as int));
    if !in_gen(l, f) {
        // f stays the Frobenius number, and f < 2y.
        if r.f < f {
            lemma_above_frobenius(r, f);
            assert(false);
        }
        assert(r.f == t.f);
        if f - y >= y {
            assert(in_gen(l, f - y));
            lemma_add_gen(l, f - y, iy);
            assert(false);
        }
        assert(rg[0] < r.f && rg[0] + r.m > r.f);
    } else {
        // r is {0} ∪ [y, ∞): its Frobenius number is y − 1.
        assert(r.f < y);
        if r.f < y - 1 {
            lemma_above_frobenius(r, y - 1);
            assert(in_gen(rg, y - 1));
            lemma_positive_ge(rg, r.m as int, y - 1);
            assert(false);
        }
        assert(r.f == y - 1);
        let g = 2 * y - 1;
        assert(in_gen(rg, g));
        assert forall|x: int| 0 < x < g implies !(#[trigger] in_gen(rg, x) && in_gen(rg, g - x)) by {
            if in_gen(rg, x) && in_gen(rg, g - x) {
                lemma_positive_ge(rg, r.m as int, x);
                lemma_positive_ge(rg, r.m as int, g - x);
            }
        }
        assert(is_atom(rg, g));
        assert(seq_has(rg, g));
        let k = choose|k: int| 0 <= k < rg.len() && rg[k] == g;
        assert(rg[k] == r.f + r.m);
    }
}

/// The result of descent is a descent image: whenever `f ≥ m`, the
/// semigroup that descent builds has a minimal generator `g` with
/// `g = f + m` or `f − m < g < f` (its own `f` and `m`).
pub proof fn lemma_descent_is_image(t: Semigroup, r: Semigroup)
    requires
        t.wf(),
        t.f >= t.m,
        generated_by(r, descent_list(t)),
    ensures
        exists|k: int| 0 <= k < r.gen_set@.len() && {
            let g = #[trigger] r.gen_set@[k];
            g == r.f + r.m || (g < r.f && g + r.m > r.f)
        },
{
    let top = max_apery_in(t.apery_set@, t.f as int, t.f + t.m, t.m as int);
    lemma_max_apery_some(t.apery_set@, t.f as int, t.f + t.m, t.m as int);
    if top == 0 {
        lemma_descent_adjoining_f(t, r);
    } else if top > 2 * t.m {
        lemma_descent_adjoining_shifted(t, r);
    } else {
        lemma_descent_adjoining_small(t, r);
    }
}

} // verus!
