//! What the steps along the gap ladder do to a semigroup: fast descent
//! lowers the Frobenius number by exactly `m`, the Apéry shift moves `w₁`
//! up by `m`, and ascent undoes a descent.
use vstd::prelude::*;
use crate::compute::reduced;
use crate::generated::{in_gen, is_atom, lemma_add_gen, lemma_gen_in, lemma_in_gen_subset, lemma_in_gen_unfold, lemma_positive_ge, seq_has};
use crate::manipulators::{generated_by, lemma_above_frobenius, lemma_in_gen_reduced, shifted_above};
use crate::semigroup::{apery_min, Semigroup};

verus! {

/// Every entry of `shifted_above` is `w − m` for an Apéry element `w` in
/// `(f, f + m]`, so it lies in `(f − m, f]`; and each such `w` gives one.
proof fn lemma_shifted_entries(apery: Seq<usize>, f: int, m: int, k: int)
    requires
        0 <= k <= apery.len(),
        forall|i: int| 0 <= i < apery.len() ==> #[trigger] apery[i] <= f + m,
        f >= m,
        m >= 1,
    ensures
        forall|j: int| 0 <= j < shifted_above(apery, f, m, k).len()
            ==> f - m < #[trigger] shifted_above(apery, f, m, k)[j] <= f,
        forall|i: int| 0 <= i < k && apery[i] > f ==> #[trigger] shifted_above(apery, f, m, k).contains((apery[i] - m) as usize),
    decreases k,
{
    if k > 0 {
        lemma_shifted_entries(apery, f, m, k - 1);
        let prev = shifted_above(apery, f, m, k - 1);
        let cur = shifted_above(apery, f, m, k);
        assert forall|j: int| 0 <= j < cur.len() implies f - m < #[trigger] cur[j] <= f by {
            if apery[k - 1] > f && j == prev.len() {
                assert(cur[j] == (apery[k - 1] - m) as usize);
                assert(0 < apery[k - 1] - m <= f);
            } else {
                assert(cur[j] == prev[j]);
            }
        }
        assert forall|i: int| 0 <= i < k && apery[i] > f implies #[trigger] cur.contains((apery[i] - m) as usize) by {
            if i < k - 1 {
                assert(prev.contains((apery[i] - m) as usize));
                let j = choose|j: int| 0 <= j < prev.len() && prev[j] == (apery[i] - m) as usize;
                if apery[k - 1] > f {
                    assert(cur == prev.push((apery[k - 1] - m) as usize));
                    assert(cur[j] == prev[j]);
                } else {
                    assert(cur == prev);
                }
            } else {
                assert(cur[prev.len() as int] == (apery[i] - m) as usize);
            }
        }
    }
}

/// Appending entries larger than `x` adds no element `x`.
proof fn lemma_in_gen_below_extra(a: Seq<usize>, e: Seq<usize>, x: int)
    requires
        in_gen(a + e, x),
        forall|j: int| 0 <= j < e.len() ==> #[trigger] e[j] > x,
    ensures
        in_gen(a, x),
    decreases x,
{
    let b = a + e;
    if x > 0 {
        lemma_in_gen_unfold(b, x);
        let i = choose|i: int| 0 <= i < b.len() && 0 < b[i] <= x && #[trigger] in_gen(b, x - b[i]);
        if i >= a.len() {
            assert(b[i] == e[i - a.len()]);
        }
        assert(b[i] == a[i]);
        assert forall|j: int| 0 <= j < e.len() implies #[trigger] e[j] > x - a[i] by {}
        lemma_in_gen_below_extra(a, e, x - a[i]);
        lemma_add_gen(a, x - a[i], i);
    }
}

/// The generators of a semigroup followed by more positive entries form
/// their own reduced list (the gcd is 1).
proof fn lemma_reduced_extend(t: Semigroup, e: Seq<usize>)
    requires
        t.wf(),
        forall|j: int| 0 <= j < e.len() ==> #[trigger] e[j] >= 1,
    ensures
        reduced(t.gen_set@ + e) == t.gen_set@ + e,
{
    let a = t.gen_set@;
    let l = a + e;
    let n = l.len() as int;
    let f = t.f as int;
    assert forall|i: int| 0 <= i < l.len() implies #[trigger] l[i] >= 1 by {
        if i < a.len() {
            assert(a[0] == t.m);
            if i > 0 {
                assert(a[0] < a[i]);
            }
        } else {
            assert(l[i] == e[i - a.len()]);
        }
    }
    lemma_above_frobenius(t, f + 1);
    lemma_above_frobenius(t, f + 2);
    assert forall|i: int| 0 <= i < a.len() && a[i] > 0 implies #[trigger] l.contains(a[i]) by {
        assert(l[i] == a[i]);
    }
    lemma_in_gen_subset(a, l, f + 1);
    lemma_in_gen_subset(a, l, f + 2);
    lemma_in_gen_reduced(l, f + 1);
    lemma_in_gen_reduced(l, f + 2);
    crate::compute::lemma_gcd_seq_pos(l, n);
    let d = crate::arith::gcd_seq(l, n) as int;
    vstd::arithmetic::div_mod::lemma_fundamental_div_mod(f + 1, d);
    vstd::arithmetic::div_mod::lemma_fundamental_div_mod(f + 2, d);
    let q1 = (f + 1) / d;
    let q2 = (f + 2) / d;
    assert(d * (q2 - q1) == 1) by (nonlinear_arith) requires f + 1 == d * q1, f + 2 == d * q2;
    assert(d == 1) by (nonlinear_arith) requires d * (q2 - q1) == 1, d >= 1;
    assert forall|k: int| 0 <= k < n implies #[trigger] reduced(l)[k] == l[k] by {
        assert((l[k] as nat) / 1 == l[k]);
    }
    assert(reduced(l) =~= l);
}

/// Fast descent lowers the Frobenius number by exactly `m` and keeps the
/// multiplicity: when `f ≥ 2m`, adjoining `w − m` for every Apéry element
/// `w > f` (among them `f` itself, from `w = f + m`) gives a semigroup with
/// Frobenius number `f − m` and multiplicity `m`.
pub proof fn lemma_fast_descent_lowers_f(t: Semigroup, r: Semigroup)
    requires
        t.wf(),
        t.f >= 2 * t.m,
        generated_by(r, t.gen_set@ + shifted_above(t.apery_set@, t.f as int, t.m as int, t.m as int)),
    ensures
        r.m == t.m,
        r.f + t.m == t.f,
{
    let m = t.m as int;
    let f = t.f as int;
    let a = t.gen_set@;
    let ap = t.apery_set@;
    let e = shifted_above(ap, f, m, m);
    let l = a + e;
    let rg = r.gen_set@;
    crate::manipulators::lemma_apery_bounded(t);
    lemma_shifted_entries(ap, f, m, m);
    assert forall|j: int| 0 <= j < e.len() implies #[trigger] e[j] >= 1 by {}
    lemma_reduced_extend(t, e);
    assert forall|x: int| #[trigger] in_gen(rg, x) == in_gen(l, x) by {
        assert(r.contains(x) == in_gen(reduced(l), x));
    }
    assert forall|i: int| 0 <= i < a.len() && a[i] > 0 implies #[trigger] l.contains(a[i]) by {
        assert(l[i] == a[i]);
    }
    assert forall|i: int| 0 <= i < l.len() implies #[trigger] l[i] >= m by {
        if i < a.len() {
            if i > 0 {
                assert(a[0] < a[i]);
            }
        } else {
            assert(l[i] == e[i - a.len()]);
        }
    }
    // The multiplicity stays m.
    lemma_gen_in(a, 0);
    lemma_in_gen_subset(a, l, m);
    assert forall|i: int| 0 <= i < rg.len() implies #[trigger] rg[i] >= r.m by {
        if i > 0 {
            assert(rg[0] < rg[i]);
        }
    }
    lemma_positive_ge(rg, r.m as int, m);
    lemma_gen_in(rg, 0);
    lemma_positive_ge(l, m, r.m as int);
    assert(r.m == t.m);
    // f − m stays a gap: every adjoined entry exceeds it, and f − m ∈ t would put f in t.
    let r0 = choose|r0: int| 0 <= r0 < m && #[trigger] ap[r0] == f + m;
    assert(apery_min(a, m, ap[r0] as int, r0));
    vstd::arithmetic::div_mod::lemma_mod_add_multiples_vanish(f, m);
    assert(!in_gen(a, f));
    if in_gen(l, f - m) {
        assert forall|j: int| 0 <= j < e.len() implies #[trigger] e[j] > f - m by {}
        lemma_in_gen_below_extra(a, e, f - m);
        lemma_add_gen(a, f - m, 0);
        assert(false);
    }
    // Every number above f − m is in r.
    assert forall|x: int| x > f - m implies #[trigger] in_gen(l, x) by {
        if x > f {
            lemma_above_frobenius(t, x);
            lemma_in_gen_subset(a, l, x);
        } else if in_gen(a, x) {
            lemma_in_gen_subset(a, l, x);
        } else {
            lemma_above_frobenius(t, x + m);
            let c = x % m;
            assert(0 <= c < m) by (nonlinear_arith) requires m >= 1, c == x % m;
            let w = ap[c] as int;
            assert(apery_min(a, m, w, c));
            vstd::arithmetic::div_mod::lemma_mod_add_multiples_vanish(x, m);
            assert(w <= x + m);
            if w <= x {
                crate::compute::lemma_same_class_above(a, m, w, x);
            }
            assert((w - x) % m == 0) by {
                vstd::arithmetic::div_mod::lemma_sub_mod_noop(w, x, m);
                assert(0int % m == 0);
            }
            assert(w - x >= m) by (nonlinear_arith) requires (w - x) % m == 0, w - x > 0, m >= 1;
            assert(w == x + m);
            assert(e.contains((ap[c] - m) as usize));
            let j = choose|j: int| 0 <= j < e.len() && e[j] == (ap[c] - m) as usize;
            assert(l[a.len() + j] == e[j]);
            lemma_gen_in(l, a.len() + j);
        }
    }
    // So the Frobenius number of r is f − m.
    if r.f < f - m {
        lemma_above_frobenius(r, f - m);
        assert(false);
    }
    let r1 = choose|r1: int| 0 <= r1 < r.m && #[trigger] r.apery_set@[r1] == r.f + r.m;
    assert(apery_min(rg, r.m as int, r.apery_set@[r1] as int, r1));
    vstd::arithmetic::div_mod::lemma_mod_add_multiples_vanish(r.f as int, r.m as int);
    assert(!in_gen(rg, r.f as int));
    if r.f > f - m {
        assert(in_gen(l, r.f as int));
        assert(false);
    }
}


/// The Apéry shift `⟨m, w₁ + m, w₂, …, w_{m−1}⟩` lies inside the semigroup,
/// holds `w₁ + m`, and, when `w₁` is a minimal generator, loses `w₁`: the
/// class of `w₁` now starts higher.
pub proof fn lemma_apery_shift_moves_w1(s: Semigroup, r: Semigroup)
    requires
        s.wf(),
        s.m >= 2,
        generated_by(r, crate::manipulators::apery_shift_list(s)),
    ensures
        r.contains(s.apery_set@[1] + s.m),
        forall|x: int| #[trigger] r.contains(x) ==> s.contains(x),
        seq_has(s.gen_set@, s.apery_set@[1] as int) ==> !r.contains(s.apery_set@[1] as int),
{
    let m = s.m as int;
    let f = s.f as int;
    let a = s.gen_set@;
    let ap = s.apery_set@;
    let w1 = ap[1] as int;
    let l = crate::manipulators::apery_shift_list(s);
    let n = l.len() as int;
    crate::manipulators::lemma_apery_bounded(s);
    assert(l.len() == m);
    assert(l[0] == m);
    assert(f + 2 * m <= usize::MAX) by (nonlinear_arith)
        requires 4 * (m * (f + m)) <= usize::MAX, m >= 2, f >= 0;
    assert(w1 + m <= usize::MAX);
    assert(l[1] as int == w1 + m);
    assert forall|i: int| 2 <= i < m implies #[trigger] l[i] == ap[i] by {}
    // Every entry lies in s.
    lemma_gen_in(a, 0);
    assert(apery_min(a, m, w1, 1));
    crate::generated::lemma_closed_add(a, w1, m);
    assert forall|i: int| 0 <= i < l.len() && l[i] > 0 implies in_gen(a, #[trigger] l[i] as int) by {
        if i >= 2 {
            assert(apery_min(a, m, ap[i] as int, i));
        }
    }
    assert forall|i: int| 0 <= i < l.len() implies #[trigger] l[i] >= 1 by {
        if i >= 2 {
            assert(ap[i] >= i);
        }
    }
    // The gcd of the list is 1: it generates f + 1 + m and f + 2 + m.
    assert forall|y: int| y > f implies #[trigger] in_gen(l, y + m) by {
        lemma_above_frobenius(s, y);
        let c = y % m;
        assert(0 <= c < m) by (nonlinear_arith) requires m >= 1, c == y % m;
        let w = ap[c] as int;
        assert(apery_min(a, m, w, c));
        assert(w <= y);
        let v = w + m;
        if c == 0 {
            assert(w == 0) by {
                crate::identities::lemma_apery_zero(s);
            }
            lemma_gen_in(l, 0);
        } else if c == 1 {
            lemma_gen_in(l, 1);
        } else {
            lemma_gen_in(l, c);
            lemma_add_gen(l, w, 0);
        }
        assert(in_gen(l, v));
        vstd::arithmetic::div_mod::lemma_mod_add_multiples_vanish(w, m);
        vstd::arithmetic::div_mod::lemma_mod_add_multiples_vanish(y, m);
        crate::compute::lemma_same_class_above(l, m, v, y + m);
    }
    assert(in_gen(l, f + 1 + m));
    assert(in_gen(l, f + 2 + m));
    lemma_in_gen_reduced(l, f + 1 + m);
    lemma_in_gen_reduced(l, f + 2 + m);
    crate::compute::lemma_gcd_seq_pos(l, n);
    let d = crate::arith::gcd_seq(l, n) as int;
    vstd::arithmetic::div_mod::lemma_fundamental_div_mod(f + 1 + m, d);
    vstd::arithmetic::div_mod::lemma_fundamental_div_mod(f + 2 + m, d);
    let q1 = (f + 1 + m) / d;
    let q2 = (f + 2 + m) / d;
    assert(d * (q2 - q1) == 1) by (nonlinear_arith) requires f + 1 + m == d * q1, f + 2 + m == d * q2;
    assert(d == 1) by (nonlinear_arith) requires d * (q2 - q1) == 1, d >= 1;
    assert forall|k: int| 0 <= k < n implies #[trigger] reduced(l)[k] == l[k] by {
        assert((l[k] as nat) / 1 == l[k]);
    }
    assert(reduced(l) =~= l);
    assert forall|x: int| #[trigger] r.contains(x) == in_gen(l, x) by {}
    // w₁ + m is an entry, and every element of r lies in s.
    lemma_gen_in(l, 1);
    assert forall|x: int| #[trigger] r.contains(x) implies s.contains(x) by {
        crate::generated::lemma_in_gen_sub_monoid(l, a, x);
    }
    // w₁ is reached only through a sum of two smaller positive elements.
    if seq_has(a, w1) && in_gen(l, w1) {
        let gi = choose|gi: int| 0 <= gi < a.len() && a[gi] == w1;
        assert(is_atom(a, a[gi] as int));
        lemma_in_gen_unfold(l, w1);
        let i = choose|i: int| 0 <= i < l.len() && 0 < l[i] <= w1 && #[trigger] in_gen(l, w1 - l[i]);
        crate::generated::lemma_in_gen_sub_monoid(l, a, w1 - l[i]);
        if i == 0 {
            vstd::arithmetic::div_mod::lemma_mod_sub_multiples_vanish(w1, m);
            assert(false);
        } else {
            assert(i >= 2);
            assert(apery_min(a, m, ap[i] as int, i));
            assert(ap[i] as int != w1) by {
                assert(w1 % m == 1);
                assert((ap[i] as int) % m == i);
            }
            assert(in_gen(a, ap[i] as int));
            assert(!(in_gen(a, ap[i] as int) && in_gen(a, w1 - ap[i])));
            assert(false);
        }
    }
}


/// `ascent_max` is the largest of the first `j` generators that qualify,
/// or nothing when none does.
proof fn lemma_ascent_max_is_largest(s: Semigroup, l: int, k: int, j: int)
    requires
        0 <= j <= s.gen_set@.len(),
    ensures
        match crate::manipulators::ascent_max(s, l, k, j) {
            None => forall|i: int| 0 <= i < j ==> !crate::manipulators::ascent_ok(s, l, k, #[trigger] s.gen_set@[i] as int),
            Some(v) => {
                &&& exists|i: int| 0 <= i < j && #[trigger] s.gen_set@[i] == v && crate::manipulators::ascent_ok(s, l, k, v)
                &&& forall|i: int| 0 <= i < j && crate::manipulators::ascent_ok(s, l, k, #[trigger] s.gen_set@[i] as int)
                    ==> s.gen_set@[i] <= v
            },
        },
    decreases j,
{
    if j > 0 {
        lemma_ascent_max_is_largest(s, l, k, j - 1);
    }
}

/// Ascent undoes a descent that adjoins `y = w − m` above `m`, for the
/// largest Apéry element `w` of `t` in `(f, f + m)`, when no minimal generator
/// of `t` lies in `(y, f)` or equals `f + m`: ascent then removes exactly
/// `y` again, and its result has the elements of `t`.
pub proof fn lemma_ascent_undoes_descent(t: Semigroup, r: Semigroup, r2: Semigroup)
    requires
        t.wf(),
        t.f >= t.m,
        crate::manipulators::max_apery_in(t.apery_set@, t.f as int, t.f + t.m, t.m as int) > 2 * t.m,
        forall|k: int| 0 <= k < t.gen_set@.len() ==> {
            let g = #[trigger] t.gen_set@[k] as int;
            &&& !(crate::manipulators::max_apery_in(t.apery_set@, t.f as int, t.f + t.m, t.m as int) - t.m < g < t.f)
            &&& g != t.f + t.m
        },
        generated_by(r, crate::manipulators::descent_list(t)),
        crate::manipulators::ascended(r2, r),
    ensures
        crate::manipulators::ascent_choice(r)
            == Some(crate::manipulators::max_apery_in(t.apery_set@, t.f as int, t.f + t.m, t.m as int) - t.m),
        forall|x: int| #[trigger] r2.contains(x) == t.contains(x),
{
    let m = t.m as int;
    let f = t.f as int;
    let a = t.gen_set@;
    let top = crate::manipulators::max_apery_in(t.apery_set@, f, f + m, m);
    let y = top - m;
    let l = a.push(y as usize);
    let rg = r.gen_set@;
    crate::descent_image::lemma_descent_adjoining_shifted(t, r);
    assert(crate::manipulators::descent_list(t) == l);
    crate::descent_image::lemma_max_apery_some(t.apery_set@, f, f + m, m);
    let j = choose|j: int| 0 <= j < m && {
        let w = #[trigger] t.apery_set@[j] as int;
        w == top && f < w < f + m
    };
    assert(apery_min(a, m, top, j));
    vstd::arithmetic::div_mod::lemma_mod_add_multiples_vanish(y, m);
    assert(!in_gen(a, y));
    assert(m < y < f);
    assert forall|i: int| 0 <= i < l.len() implies #[trigger] l[i] >= m by {
        if 0 < i < a.len() {
            assert(a[0] < a[i]);
        }
    }
    crate::descent_image::lemma_reduced_push(t, y as usize);
    assert forall|x: int| #[trigger] in_gen(rg, x) == in_gen(l, x) by {
        assert(r.contains(x) == in_gen(reduced(l), x));
    }
    assert forall|i: int| 0 <= i < a.len() && a[i] > 0 implies #[trigger] l.contains(a[i]) by {
        assert(l[i] == a[i]);
    }
    // r is t with y added: r \ {y} = t.
    assert forall|x: int| #[trigger] t.contains(x) == (r.contains(x) && x != y) by {
        if t.contains(x) {
            lemma_in_gen_subset(a, l, x);
        }
        if in_gen(l, x) && x != y && !in_gen(a, x) {
            crate::descent_image::lemma_in_gen_push_split(a, y as usize, x);
            lemma_positive_ge(l, m, x - y);
            lemma_above_frobenius(t, x);
        }
    }
    // y is an Apéry element of r.
    let c = y % m;
    assert(0 <= c < m) by (nonlinear_arith) requires m >= 1, c == y % m;
    let w = r.apery_set@[c] as int;
    assert(apery_min(rg, m, w, c));
    lemma_gen_in(l, a.len() as int);
    assert(in_gen(rg, y));
    if w < y {
        crate::descent_image::lemma_in_gen_below_new(a, y as usize, w);
        crate::compute::lemma_same_class_above(a, m, w, y);
        assert(false);
    }
    assert(w == y);
    assert(crate::manipulators::is_apery_value(r, 1 * y));
    assert(crate::manipulators::ascent_ok(r, 0, 1, y));
    // No other qualifying atom of r is larger than y.
    assert forall|i: int| 0 <= i < rg.len() && crate::manipulators::ascent_ok(r, 0, 1, #[trigger] rg[i] as int)
        implies rg[i] <= y by {
        let g = rg[i] as int;
        if g > y {
            assert(is_atom(rg, g));
            assert(g < f || g == f + m);
            assert(g > f ==> t.contains(g)) by {
                if g > f {
                    lemma_above_frobenius(t, g);
                }
            }
            assert(t.contains(g));
            assert forall|x: int| 0 < x < g implies !(#[trigger] in_gen(a, x) && in_gen(a, g - x)) by {
                if in_gen(a, x) && in_gen(a, g - x) {
                    lemma_in_gen_subset(a, l, x);
                    lemma_in_gen_subset(a, l, g - x);
                    assert(in_gen(rg, x) && in_gen(rg, g - x));
                }
            }
            assert(is_atom(a, g));
            let k = choose|k: int| 0 <= k < a.len() && a[k] == g;
            assert(a[k] as int == g);
        }
    }
    let gy = choose|gy: int| 0 <= gy < rg.len() && rg[gy] == y;
    lemma_ascent_max_is_largest(r, 0, 1, rg.len() as int);
    assert(crate::manipulators::ascent_ok(r, 0, 1, rg[gy] as int));
    let level = r.level as int;
    assert(level >= 1) by (nonlinear_arith) requires level == f / m, f >= m, m >= 1;
    assert(0int / level == 0 && 0int % level == 0) by (nonlinear_arith) requires level >= 1;
    assert(crate::manipulators::ascent_pick(r, 0) is None);
    assert(crate::manipulators::ascent_pick(r, 1) == Some(y));
    assert(level * level >= 1) by (nonlinear_arith) requires level >= 1;
    crate::manipulators::lemma_ascent_pick_stable(r, 1, level * level);
    assert(crate::manipulators::ascent_choice(r) == Some(y));
    // Ascent toggles y, which leaves exactly the elements of r other than y.
    assert(y < r.f + r.m);
    assert(r.f + 3 * r.m + 1 <= usize::MAX + 1) by (nonlinear_arith)
        requires 4 * (r.m * (r.f + r.m)) <= usize::MAX, r.m >= 1;
    crate::manipulators::lemma_toggle_removes(r, y);
    assert(crate::manipulators::toggled(r2, r, y as usize));
    assert forall|x: int| #[trigger] r2.contains(x) == t.contains(x) by {
        assert(r2.contains(x) == in_gen(reduced(crate::manipulators::toggle_list(r, y)), x));
    }
}


/// Ascent undoes a descent that adjoins the Frobenius number: when `f ≥ 2m`
/// and no Apéry element of `t` lies in `(f, f + m)`, descent adds `f`, which
/// becomes `f + m` of the result; ascent then chooses `f` and rebuilds from
/// the other elements, giving back the elements of `t`.
pub proof fn lemma_ascent_undoes_descent_of_f(t: Semigroup, r: Semigroup, r2: Semigroup)
    requires
        t.wf(),
        t.f >= 2 * t.m,
        crate::manipulators::max_apery_in(t.apery_set@, t.f as int, t.f + t.m, t.m as int) == 0,
        generated_by(r, crate::manipulators::descent_list(t)),
        crate::manipulators::ascended(r2, r),
    ensures
        crate::manipulators::ascent_choice(r) == Some(t.f as int),
        forall|x: int| #[trigger] r2.contains(x) == t.contains(x),
{
    let m = t.m as int;
    let f = t.f as int;
    let a = t.gen_set@;
    let l = a.push(t.f);
    let rg = r.gen_set@;
    crate::descent_image::lemma_descent_adjoining_f(t, r);
    assert(crate::manipulators::descent_list(t) == l);
    crate::descent_image::lemma_reduced_push(t, t.f);
    assert forall|x: int| #[trigger] in_gen(rg, x) == in_gen(l, x) by {
        assert(r.contains(x) == in_gen(reduced(l), x));
    }
    assert forall|i: int| 0 <= i < a.len() && a[i] > 0 implies #[trigger] l.contains(a[i]) by {
        assert(l[i] == a[i]);
    }
    assert forall|i: int| 0 <= i < l.len() implies #[trigger] l[i] >= m by {
        if 0 < i < a.len() {
            assert(a[0] < a[i]);
        }
    }
    // f is a gap of t.
    let r0 = choose|r0: int| 0 <= r0 < m && #[trigger] t.apery_set@[r0] == f + m;
    assert(apery_min(a, m, t.apery_set@[r0] as int, r0));
    vstd::arithmetic::div_mod::lemma_mod_add_multiples_vanish(f, m);
    assert(!in_gen(a, f));
    // r is t with f added: r \ {f} = t.
    assert forall|x: int| #[trigger] t.contains(x) == (r.contains(x) && x != f) by {
        if t.contains(x) {
            lemma_in_gen_subset(a, l, x);
        }
        if in_gen(l, x) && x != f && !in_gen(a, x) {
            crate::descent_image::lemma_in_gen_push_split(a, t.f, x);
            lemma_positive_ge(l, m, x - f);
            lemma_above_frobenius(t, x);
        }
    }
    // f is an Apéry element of r, equal to its f + m.
    let c = f % m;
    assert(0 <= c < m) by (nonlinear_arith) requires m >= 1, c == f % m;
    let w = r.apery_set@[c] as int;
    assert(apery_min(rg, m, w, c));
    lemma_gen_in(l, a.len() as int);
    if w < f {
        crate::descent_image::lemma_in_gen_below_new(a, t.f, w);
        crate::compute::lemma_same_class_above(a, m, w, f);
        assert(false);
    }
    assert(crate::manipulators::is_apery_value(r, 1 * f));
    assert(crate::manipulators::ascent_ok(r, 0, 1, f));
    let gy = choose|gy: int| 0 <= gy < rg.len() && rg[gy] == f;
    lemma_ascent_max_is_largest(r, 0, 1, rg.len() as int);
    assert(crate::manipulators::ascent_ok(r, 0, 1, rg[gy] as int));
    let level = r.level as int;
    assert(level >= 1) by (nonlinear_arith) requires level == r.f / r.m, r.f + r.m == f, f >= 2 * m, r.m == m, m >= 1;
    assert(0int / level == 0 && 0int % level == 0) by (nonlinear_arith) requires level >= 1;
    assert(crate::manipulators::ascent_pick(r, 0) is None);
    assert(crate::manipulators::ascent_pick(r, 1) == Some(f));
    assert(level * level >= 1) by (nonlinear_arith) requires level >= 1;
    crate::manipulators::lemma_ascent_pick_stable(r, 1, level * level);
    // Ascent rebuilds from the elements in 1..=f + m other than f.
    let p = crate::manipulators::without_fm_pred(r);
    let n = r.f + 2 * r.m + 1;
    assert(n == f + m + 1);
    assert(f + m + 1 <= usize::MAX) by (nonlinear_arith) requires 4 * (m * (f + m)) <= usize::MAX, m >= 1;
    let ll = crate::manipulators::without_fm_list(r);
    assert(ll == crate::generated::filter_upto(p, n));
    lemma_gen_in(rg, 0);
    assert(p(m));
    let km = crate::generated::lemma_filter_contains(p, n, m);
    assert(ll.len() > 0);
    assert(generated_by(r2, ll));
    crate::manipulators::lemma_filter_members(p, n);
    assert(m >= 2);
    lemma_above_frobenius(t, f + 1);
    lemma_above_frobenius(t, f + 2);
    lemma_in_gen_subset(a, l, f + 1);
    lemma_in_gen_subset(a, l, f + 2);
    let i1 = crate::generated::lemma_filter_contains(p, n, f + 1);
    let i2 = crate::generated::lemma_filter_contains(p, n, f + 2);
    crate::compute::lemma_reduced_consecutive(ll, i1, i2);
    // Its entries are elements of t, and it holds every generator of t.
    assert forall|i: int| 0 <= i < ll.len() && ll[i] > 0 implies in_gen(a, #[trigger] ll[i] as int) by {
        assert(p(ll[i] as int));
        assert(t.contains(ll[i] as int) == (r.contains(ll[i] as int) && ll[i] != f));
    }
    crate::manipulators::lemma_gens_bounded(t);
    assert forall|i: int| 0 <= i < a.len() && a[i] > 0 implies #[trigger] ll.contains(a[i]) by {
        crate::generated::lemma_gen_in(a, i);
        lemma_in_gen_subset(a, l, a[i] as int);
        assert(p(a[i] as int));
        let k = crate::generated::lemma_filter_contains(p, n, a[i] as int);
    }
    assert forall|x: int| #[trigger] r2.contains(x) == t.contains(x) by {
        assert(r2.contains(x) == in_gen(ll, x));
        if in_gen(ll, x) {
            crate::generated::lemma_in_gen_sub_monoid(ll, a, x);
        }
        if in_gen(a, x) {
            lemma_in_gen_subset(a, ll, x);
        }
    }
}

} // verus!
