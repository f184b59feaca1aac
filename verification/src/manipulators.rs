//! Constructions that turn a [`Semigroup`] into another: toggling an
//! element, descents and ascents along the gap ladder, halves, adjoining
//! pseudo-Frobenius numbers or reflected gaps, the canonical ideal and the
//! Apéry shift.
//!
//! Each construction lists generators and closes them with
//! [`compute`](crate::compute::compute); its contract names that list.
use vstd::prelude::*;
use crate::compute::{compute, compute_fits, compute_small, fits_pair, reduced};
use crate::generated::{filter_upto, in_gen, is_atom};
use crate::semigroup::{apery_min, core_ok, pf_pred, reflected_pred, small_enough, Semigroup};

verus! {

/// `r` is the semigroup generated by `list` (after dividing out the gcd),
/// with every field consistent.
pub open spec fn generated_by(r: Semigroup, list: Seq<usize>) -> bool {
    &&& r.wf()
    &&& forall|x: int| #[trigger] r.contains(x) == in_gen(reduced(list), x)
}

/// `a` and `b` hold the same values in every field.
pub open spec fn same_semigroup(a: Semigroup, b: Semigroup) -> bool {
    &&& a.e == b.e
    &&& a.f == b.f
    &&& a.m == b.m
    &&& a.t == b.t
    &&& a.r == b.r
    &&& a.es == b.es
    &&& a.rl == b.rl
    &&& a.ae == b.ae
    &&& a.ra == b.ra
    &&& a.fg == b.fg
    &&& a.sigma == b.sigma
    &&& a.g == b.g
    &&& a.max_gen == b.max_gen
    &&& a.gen_set@ == b.gen_set@
    &&& a.apery_set@ == b.apery_set@
    &&& a.apery_sum == b.apery_sum
    &&& a.pf_set@ == b.pf_set@
    &&& a.mu == b.mu
    &&& a.level == b.level
    &&& a.is_symmetric == b.is_symmetric
    &&& a.is_almost_symmetric == b.is_almost_symmetric
    &&& a.deep == b.deep
}

/// A list that [`compute`] accepts: nonempty, with positive entries small
/// enough for its window.
pub open spec fn compute_ready(list: Seq<usize>) -> bool {
    &&& list.len() >= 1
    &&& forall|i: int| 0 <= i < list.len() ==> #[trigger] list[i] >= 1 && small_enough(list[i] as int)
}

/// The entries of `s` different from `v`, in order.
pub open spec fn without(s: Seq<usize>, v: int) -> Seq<usize>
    decreases s.len(),
{
    if s.len() == 0 {
        Seq::empty()
    } else if s.last() as int == v {
        without(s.drop_last(), v)
    } else {
        without(s.drop_last(), v).push(s.last())
    }
}

/// `small_enough` holds below a number that has it.
pub proof fn lemma_small_mono(a: int, b: int)
    requires
        0 <= a <= b,
        small_enough(b),
    ensures
        small_enough(a),
{
    assert(a * a * a <= b * b * b) by (nonlinear_arith) requires 0 <= a <= b;
}

/// Every entry of a filtered range satisfies the filter and lies in the range.
pub proof fn lemma_filter_members(p: spec_fn(int) -> bool, n: int)
    requires
        n <= usize::MAX + 1,
    ensures
        forall|k: int| 0 <= k < filter_upto(p, n).len() ==> {
            &&& 0 <= #[trigger] filter_upto(p, n)[k] < n
            &&& p(filter_upto(p, n)[k] as int)
        },
    decreases n,
{
    if n > 0 {
        lemma_filter_members(p, n - 1);
        let prev = filter_upto(p, n - 1);
        let cur = filter_upto(p, n);
        assert forall|k: int| 0 <= k < cur.len() implies {
            &&& 0 <= #[trigger] cur[k] < n
            &&& p(cur[k] as int)
        } by {
            if p(n - 1) {
                if k < prev.len() {
                    assert(cur[k] == prev[k]);
                } else {
                    assert(cur[k] == (n - 1) as usize);
                }
            } else {
                assert(cur[k] == prev[k]);
            }
        }
    }
}

/// Every entry of `without(s, v)` is an entry of `s` other than `v`.
pub proof fn lemma_without_members(s: Seq<usize>, v: int)
    ensures
        forall|k: int| 0 <= k < without(s, v).len() ==> {
            &&& #[trigger] without(s, v)[k] as int != v
            &&& exists|j: int| 0 <= j < s.len() && s[j] == without(s, v)[k]
        },
    decreases s.len(),
{
    if s.len() > 0 {
        lemma_without_members(s.drop_last(), v);
        let w = without(s, v);
        let w0 = without(s.drop_last(), v);
        assert forall|k: int| 0 <= k < w.len() implies {
            &&& #[trigger] w[k] as int != v
            &&& exists|j: int| 0 <= j < s.len() && s[j] == w[k]
        } by {
            if k < w0.len() {
                assert(w[k] == w0[k]);
                let j = choose|j: int| 0 <= j < s.drop_last().len() && s.drop_last()[j] == w0[k];
                assert(s[j] == w[k]);
            } else {
                assert(w[k] == s.last());
                assert(s[s.len() - 1] == w[k]);
            }
        }
    }
}

/// A copy of a vector.
pub fn copy_vec(v: &Vec<usize>) -> (r: Vec<usize>)
    ensures
        r@ == v@,
{
    let mut r: Vec<usize> = Vec::new();
    let mut k: usize = 0;
    while k < v.len()
        invariant
            k <= v@.len(),
            r@ == v@.subrange(0, k as int),
        decreases v@.len() - k,
    {
        r.push(v[k]);
        k = k + 1;
    }
    assert(r@ == v@);
    r
}

/// Appends the entries of `src` to `dst`.
pub fn append_all(dst: &mut Vec<usize>, src: &Vec<usize>)
    ensures
        final(dst)@ == old(dst)@ + src@,
{
    let ghost start = dst@;
    let mut k: usize = 0;
    while k < src.len()
        invariant
            k <= src@.len(),
            dst@ == start + src@.subrange(0, k as int),
        decreases src@.len() - k,
    {
        dst.push(src[k]);
        k = k + 1;
    }
    assert(dst@ == start + src@);
}

impl Semigroup {
    /// A copy of `self`.
    pub fn duplicate(&self) -> (r: Semigroup)
        ensures
            same_semigroup(r, *self),
    {
        Semigroup {
            e: self.e,
            f: self.f,
            m: self.m,
            t: self.t,
            r: self.r,
            es: self.es,
            rl: self.rl,
            ae: self.ae,
            ra: self.ra,
            fg: self.fg,
            sigma: self.sigma,
            g: self.g,
            max_gen: self.max_gen,
            gen_set: copy_vec(&self.gen_set),
            apery_set: copy_vec(&self.apery_set),
            apery_sum: self.apery_sum,
            pf_set: copy_vec(&self.pf_set),
            mu: self.mu,
            level: self.level,
            is_symmetric: self.is_symmetric,
            is_almost_symmetric: self.is_almost_symmetric,
            deep: self.deep,
        }
    }
}

/// Semigroups with the same fields are both well formed or both not, and
/// have the same elements.
pub proof fn lemma_same_semigroup(a: Semigroup, b: Semigroup)
    requires
        same_semigroup(a, b),
        b.wf(),
    ensures
        a.wf(),
        forall|x: int| #[trigger] a.contains(x) == b.contains(x),
{
}

/// Every minimal generator of a well-formed semigroup lies in `[1, f + m]`.
pub proof fn lemma_gens_bounded(s: Semigroup)
    requires
        s.wf(),
    ensures
        forall|k: int| 0 <= k < s.gen_set@.len() ==> 1 <= #[trigger] s.gen_set@[k] <= s.f + s.m,
{
    assert forall|k: int| 0 <= k < s.gen_set@.len() implies 1 <= #[trigger] s.gen_set@[k] <= s.f + s.m by {
        crate::derived::lemma_atom_bound(s.gen_set@, s.m as int, s.f as int, s.apery_set@, s.gen_set@[k] as int);
    }
}

/// Every Apéry element is at most `f + m`, and `w_i ≥ i`.
pub proof fn lemma_apery_bounded(s: Semigroup)
    requires
        s.wf(),
    ensures
        forall|i: int| 0 <= i < s.m ==> i <= #[trigger] s.apery_set@[i] <= s.f + s.m,
{
    assert forall|i: int| 0 <= i < s.m implies i <= #[trigger] s.apery_set@[i] <= s.f + s.m by {
        assert(apery_min(s.gen_set@, s.m as int, s.apery_set@[i] as int, i));
        let w = s.apery_set@[i] as int;
        assert(w % (s.m as int) <= w) by (nonlinear_arith) requires w >= 0, s.m >= 1;
    }
}

/// The generators of a well-formed semigroup, with extra entries in `[1, b]`
/// for some `b ≥ f + m`, form a list that [`compute`] accepts when
/// `fits_pair(m, b)`.
pub proof fn lemma_fits_with(s: Semigroup, extra: Seq<usize>, b: int)
    requires
        s.wf(),
        s.f + s.m <= b,
        fits_pair(s.m as int, b),
        forall|k: int| 0 <= k < extra.len() ==> 1 <= #[trigger] extra[k] <= b,
    ensures
        (s.gen_set@ + extra).len() >= 1,
        forall|i: int| 0 <= i < (s.gen_set@ + extra).len() ==> #[trigger] (s.gen_set@ + extra)[i] >= 1,
        compute_fits(reduced(s.gen_set@ + extra)),
{
    lemma_gens_bounded(s);
    let l = s.gen_set@ + extra;
    assert forall|i: int| 0 <= i < l.len() implies 1 <= #[trigger] l[i] <= b by {
        if i >= s.gen_set@.len() {
            assert(l[i] == extra[i - s.gen_set@.len()]);
        }
    }
    assert(l[0] == s.m);
    crate::compute::lemma_fits_below(l, 0, s.m as int, b);
}

/// The generators of a well-formed semigroup, with extra entries in `[1, b]`,
/// form a list that [`compute`] accepts when `small_enough(f + m)` and
/// `small_enough(b)`.
pub proof fn lemma_ready_with(s: Semigroup, extra: Seq<usize>, b: int)
    requires
        s.wf(),
        small_enough(s.f + s.m),
        small_enough(b),
        forall|k: int| 0 <= k < extra.len() ==> 1 <= #[trigger] extra[k] <= b,
    ensures
        compute_ready(s.gen_set@ + extra),
{
    lemma_gens_bounded(s);
    let l = s.gen_set@ + extra;
    assert forall|i: int| 0 <= i < l.len() implies #[trigger] l[i] >= 1 && small_enough(l[i] as int) by {
        if i < s.gen_set@.len() {
            lemma_small_mono(l[i] as int, s.f + s.m);
        } else {
            assert(l[i] == extra[i - s.gen_set@.len()]);
            lemma_small_mono(l[i] as int, b);
        }
    }
}


/// Every number above the Frobenius number is an element.
pub proof fn lemma_above_frobenius(s: Semigroup, x: int)
    requires
        s.wf(),
        x > s.f,
    ensures
        s.contains(x),
{
    let m = s.m as int;
    let r = x % m;
    assert(0 <= r < m) by (nonlinear_arith) requires m >= 1, r == x % m;
    lemma_apery_bounded(s);
    let w = s.apery_set@[r] as int;
    assert(apery_min(s.gen_set@, m, w, r));
    if x < w {
        assert((w - x) % m == 0) by {
            vstd::arithmetic::div_mod::lemma_sub_mod_noop(w, x, m);
            assert(0int % m == 0);
        }
        assert(w - x >= m) by (nonlinear_arith) requires (w - x) % m == 0, w - x > 0, m >= 1;
        assert(false);
    }
    crate::compute::lemma_same_class_above(s.gen_set@, m, w, x);
}

/// A filtered range that contains a witness is nonempty.
pub proof fn lemma_filter_nonempty(p: spec_fn(int) -> bool, n: int, x: int)
    requires
        0 <= x < n,
        p(x),
    ensures
        filter_upto(p, n).len() >= 1,
    decreases n,
{
    if n - 1 > x {
        lemma_filter_nonempty(p, n - 1, x);
    }
}

/// Positive numbers that remain generators once the element `n` is removed:
/// elements above `n`, and elements below `n` whose complement `n − x` is a gap.
pub open spec fn toggle_pred(s: Semigroup, n: int) -> spec_fn(int) -> bool {
    |x: int| 1 <= x && s.contains(x) && (x > n || (x < n && !s.contains(n - x)))
}

/// How far [`Semigroup::toggle`] lists generators: up to `f + 3m` when `n`
/// is a minimal generator (enough to regenerate every element but `n`),
/// else up to `f + m`.
pub open spec fn toggle_top(s: Semigroup, n: int) -> int {
    if crate::generated::seq_has(s.gen_set@, n) { s.f + 3 * s.m } else { s.f + s.m }
}

/// The generators listed by [`Semigroup::toggle`] when `n` is an element:
/// those of [`toggle_pred`] up to [`toggle_top`].
pub open spec fn toggle_list(s: Semigroup, n: int) -> Seq<usize> {
    filter_upto(toggle_pred(s, n), toggle_top(s, n) + 1)
}

/// Removing a minimal generator `n`: the list of [`toggle_list`] generates
/// exactly the elements of `s` other than `n`.
pub proof fn lemma_toggle_removes(s: Semigroup, n: int)
    requires
        s.wf(),
        s.f + 3 * s.m + 1 <= usize::MAX + 1,
        crate::generated::seq_has(s.gen_set@, n),
    ensures
        toggle_list(s, n).len() > 0,
        forall|x: int| #[trigger] in_gen(reduced(toggle_list(s, n)), x) == (s.contains(x) && x != n),
{
    let gens = s.gen_set@;
    let m = s.m as int;
    let f = s.f as int;
    let top = f + 3 * m + 1;
    let p = toggle_pred(s, n);
    let l = toggle_list(s, n);
    lemma_gens_bounded(s);
    let gi = choose|gi: int| 0 <= gi < gens.len() && gens[gi] == n;
    assert(is_atom(gens, n));
    assert(1 <= n <= f + m);
    lemma_filter_members(p, top);
    // f + m + 1 and f + m + 2 are both listed, so the list is reduced.
    lemma_above_frobenius(s, f + m + 1);
    lemma_above_frobenius(s, f + m + 2);
    let i1 = crate::generated::lemma_filter_contains(p, top, f + m + 1);
    let i2 = crate::generated::lemma_filter_contains(p, top, f + m + 2);
    crate::compute::lemma_reduced_consecutive(l, i1, i2);
    assert(reduced(l) == l);
    // The entries of the list are the elements other than n.
    assert forall|k: int| 0 <= k < l.len() implies #[trigger] l[k] > 0 && in_gen(gens, l[k] as int)
        && l[k] != n by {
    }
    assert forall|x: int| #[trigger] in_gen(reduced(l), x) == (s.contains(x) && x != n) by {
        lemma_toggle_member(s, n, x);
    }
}

/// One number of [`lemma_toggle_removes`], by strong induction.
proof fn lemma_toggle_member(s: Semigroup, n: int, x: int)
    requires
        s.wf(),
        s.f + 3 * s.m + 1 <= usize::MAX + 1,
        is_atom(s.gen_set@, n),
        1 <= n <= s.f + s.m,
        forall|k: int| 0 <= k < toggle_list(s, n).len() ==> {
            &&& 0 <= #[trigger] toggle_list(s, n)[k] < s.f + 3 * s.m + 1
            &&& toggle_pred(s, n)(toggle_list(s, n)[k] as int)
        },
    ensures
        in_gen(toggle_list(s, n), x) == (s.contains(x) && x != n),
    decreases x,
{
    let gens = s.gen_set@;
    let l = toggle_list(s, n);
    let m = s.m as int;
    let f = s.f as int;
    let top = f + 3 * m + 1;
    let p = toggle_pred(s, n);
    assert forall|k: int| 0 <= k < l.len() && l[k] > 0 implies in_gen(gens, #[trigger] l[k] as int) by {
        assert(p(l[k] as int));
    }
    if in_gen(l, x) {
        crate::generated::lemma_in_gen_sub_monoid(l, gens, x);
        if x == n {
            crate::generated::lemma_in_gen_unfold(l, x);
            let i = choose|i: int| 0 <= i < l.len() && 0 < l[i] <= x && #[trigger] in_gen(l, x - l[i]);
            assert(p(l[i] as int));
            crate::generated::lemma_in_gen_sub_monoid(l, gens, x - l[i]);
            assert(!(in_gen(gens, l[i] as int) && in_gen(gens, x - l[i])));
        }
    } else if s.contains(x) && x != n {
        // x is a listed element, or x − y is one for y = m (or 2m when n = m).
        if x < 0 {
        } else if x == 0 {
        } else if x < top {
            assert(p(x)) by {
                crate::generated::lemma_in_gen_nonneg(gens, x);
                if x < n && s.contains(n - x) {
                    assert(in_gen(gens, x) && in_gen(gens, n - x));
                }
            }
            let k = crate::generated::lemma_filter_contains(p, top, x);
            crate::generated::lemma_gen_in(l, k);
        } else {
            let y = if n == m { 2 * m } else { m };
            crate::generated::lemma_gen_in(gens, 0);
            assert(s.contains(m));
            if n == m {
                crate::generated::lemma_closed_add(gens, m, m);
            }
            assert(s.contains(y));
            assert(p(y));
            let k = crate::generated::lemma_filter_contains(p, top, y);
            lemma_above_frobenius(s, x - y);
            lemma_toggle_member(s, n, x - y);
            crate::generated::lemma_add_gen(l, x - y, k);
        }
    }
}

/// `r` is the result of toggling `n` in `s`: `s` with the gap `n` adjoined
/// as a generator, or regenerated from [`toggle_list`] when `n` is an
/// element (unchanged when that list is empty).
pub open spec fn toggled(r: Semigroup, s: Semigroup, n: usize) -> bool {
    &&& !s.contains(n as int) ==> generated_by(r, s.gen_set@.push(n))
    &&& s.contains(n as int) && toggle_list(s, n as int).len() == 0 ==> same_semigroup(r, s)
    &&& s.contains(n as int) && toggle_list(s, n as int).len() > 0 ==> generated_by(r, toggle_list(s, n as int))
}

/// Largest Apéry element in the open window `(lo, hi)` among residues below `k`; 0 if none.
pub open spec fn max_apery_in(apery: Seq<usize>, lo: int, hi: int, k: int) -> int
    decreases k,
{
    if k <= 0 {
        0
    } else {
        let prev = max_apery_in(apery, lo, hi, k - 1);
        let w = apery[k - 1] as int;
        if lo < w < hi && w > prev { w } else { prev }
    }
}

/// Least Apéry element above `lo` among residues below `k`; 0 if none.
pub open spec fn min_apery_above(apery: Seq<usize>, lo: int, k: int) -> int
    decreases k,
{
    if k <= 0 {
        0
    } else {
        let prev = min_apery_above(apery, lo, k - 1);
        let w = apery[k - 1] as int;
        if w > lo && (prev == 0 || w < prev) { w } else { prev }
    }
}

/// The generators listed by [`Semigroup::descent`]: the old ones plus `f`
/// when no Apéry element lies in `(f, f + m)`, and otherwise plus `x − m`
/// for the largest Apéry element `x` there.
pub open spec fn descent_list(s: Semigroup) -> Seq<usize> {
    let top = max_apery_in(s.apery_set@, s.f as int, s.f + s.m, s.m as int);
    if top == 0 {
        s.gen_set@.push(s.f)
    } else {
        s.gen_set@.push((top - s.m) as usize)
    }
}

/// `w − m` for every Apéry element `w > f`, residues below `k`, in order.
pub open spec fn shifted_above(apery: Seq<usize>, f: int, m: int, k: int) -> Seq<usize>
    decreases k,
{
    if k <= 0 {
        Seq::empty()
    } else if apery[k - 1] > f {
        shifted_above(apery, f, m, k - 1).push((apery[k - 1] - m) as usize)
    } else {
        shifted_above(apery, f, m, k - 1)
    }
}

/// Positive `x` with `2x` an element.
pub open spec fn half_pred(s: Semigroup) -> spec_fn(int) -> bool {
    |x: int| 1 <= x && s.contains(2 * x)
}

/// The generators listed by [`Semigroup::compute_s_over_2`].
pub open spec fn half_list(s: Semigroup) -> Seq<usize> {
    filter_upto(half_pred(s), (s.f + s.m) / 2 + 2 * s.m)
}

/// `f − p` for every pseudo-Frobenius number `p ≠ f`, in order.
pub open spec fn canonical_list(s: Semigroup) -> Seq<usize> {
    without(s.pf_set@, s.f as int).map_values(|p: usize| (s.f - p) as usize)
}

/// `m, w₁ + m, w₂, …, w_{m−1}`.
pub open spec fn apery_shift_list(s: Semigroup) -> Seq<usize> {
    seq![s.m, (s.apery_set@[1] + s.m) as usize] + s.apery_set@.subrange(2, s.m as int)
}

impl Semigroup {
    /// Toggles `n`: a gap is adjoined as a new generator; a minimal
    /// generator is removed, leaving exactly the other elements. For an
    /// element the semigroup is regenerated from the elements up to
    /// [`toggle_top`] that stay generators without `n` (those above `n`, and
    /// those below with `n − x` a gap), or returned unchanged when there is
    /// none.
    pub fn toggle(&self, n: usize) -> (r: Semigroup)
        requires
            self.wf(),
            small_enough(self.f + 3 * self.m),
        ensures
            toggled(r, *self, n),
            crate::generated::seq_has(self.gen_set@, n as int) ==> forall|x: int| #[trigger] r.contains(x)
                == (self.contains(x) && x != n),
    {
        if self.is_gap(n) {
            let mut newgen = copy_vec(&self.gen_set);
            newgen.push(n);
            proof {
                if n > self.f {
                    lemma_above_frobenius(*self, n as int);
                }
                let extra = seq![n];
                assert(self.gen_set@.push(n) == self.gen_set@ + extra);
                lemma_small_mono(self.f + self.m, self.f + 3 * self.m);
                lemma_ready_with(*self, extra, self.f + self.m);
            }
            return compute_small(newgen.as_slice());
        }
        let ghost p = toggle_pred(*self, n as int);
        proof {
            assert(self.f + 3 * self.m <= usize::MAX) by (nonlinear_arith)
                requires 4 * ((self.f + 3 * self.m) * (self.f + 3 * self.m) * (self.f + 3 * self.m)) <= usize::MAX,
                    self.m >= 1;
        }
        let is_gen = crate::inspect::vec_contains(&self.gen_set, n);
        let top = if is_gen { self.f + 3 * self.m } else { self.f + self.m };
        proof {
            let t3 = self.f + 3 * self.m;
            assert(t3 + 1 <= usize::MAX) by (nonlinear_arith)
                requires 4 * (t3 * t3 * t3) <= usize::MAX, self.m >= 1;
            assert(filter_upto(p, 1) == filter_upto(p, 0));
        }
        let mut newgen: Vec<usize> = Vec::new();
        let mut x: usize = 1;
        while x <= top
            invariant
                self.wf(),
                p == toggle_pred(*self, n as int),
                top == toggle_top(*self, n as int),
                top <= self.f + 3 * self.m,
                top + 1 <= usize::MAX,
                1 <= x <= top + 1,
                newgen@ == filter_upto(p, x as int),
            decreases top + 1 - x,
        {
            let keep = if x > n {
                self.element(x)
            } else if x < n {
                self.element(x) && !self.element(n - x)
            } else {
                false
            };
            if keep {
                newgen.push(x);
            }
            x = x + 1;
        }
        proof {
            if crate::generated::seq_has(self.gen_set@, n as int) {
                lemma_toggle_removes(*self, n as int);
            }
        }
        if newgen.len() == 0 {
            return self.duplicate();
        }
        proof {
            lemma_filter_members(p, top + 1);
            let l = newgen@;
            assert forall|i: int| 0 <= i < l.len() implies #[trigger] l[i] >= 1 && small_enough(l[i] as int) by {
                lemma_small_mono(l[i] as int, self.f + 3 * self.m);
            }
        }
        compute_small(newgen.as_slice())
    }

    /// Descent: unchanged when `f < m`; otherwise adjoins `f` when no Apéry
    /// element lies in `(f, f + m)`, and else `x − m` for the largest Apéry
    /// element `x` there.
    pub fn descent(&self) -> (r: Semigroup)
        requires
            self.wf(),
            fits_pair(self.m as int, self.f + self.m),
        ensures
            self.f < self.m ==> same_semigroup(r, *self),
            self.f >= self.m ==> generated_by(r, descent_list(*self)),
    {
        if self.f < self.m {
            return self.duplicate();
        }
        let m = self.m;
        let f = self.f;
        let ghost apery = self.apery_set@;
        proof {
            assert(f + m <= usize::MAX) by (nonlinear_arith)
                requires 4 * (self.m * (self.f + self.m)) <= usize::MAX, self.m >= 1, f == self.f, m == self.m;
            lemma_apery_bounded(*self);
        }
        let mut smallest: usize = 0;
        let mut largest: usize = 0;
        let mut i: usize = 0;
        while i < m
            invariant
                self.wf(),
                m == self.m,
                f == self.f,
                apery == self.apery_set@,
                f + m <= usize::MAX,
                i <= m,
                smallest == min_apery_above(apery, f as int, i as int),
                largest == max_apery_in(apery, f as int, f + m, i as int),
            decreases m - i,
        {
            let w = self.apery_set[i];
            if w > f && (smallest == 0 || w < smallest) {
                smallest = w;
            }
            if w > f && w < f + m && w > largest {
                largest = w;
            }
            i = i + 1;
        }
        proof {
            lemma_descent_window(*self);
        }
        let mut newgen = copy_vec(&self.gen_set);
        if smallest == f + m {
            newgen.push(smallest - m);
        } else {
            newgen.push(largest - m);
        }
        proof {
            let extra = seq![newgen@.last()];
            assert(newgen@ == self.gen_set@ + extra);
            lemma_fits_with(*self, extra, self.f + self.m);
        }
        compute(newgen.as_slice())
    }
}

/// With `f ≥ m`, the least Apéry element above `f` is `f + m` exactly when
/// no Apéry element lies in `(f, f + m)`; otherwise the largest one there
/// lies in `(f, f + m)`.
proof fn lemma_descent_window(s: Semigroup)
    requires
        s.wf(),
        s.f >= s.m,
    ensures
        ({
            let apery = s.apery_set@;
            let lo = min_apery_above(apery, s.f as int, s.m as int);
            let top = max_apery_in(apery, s.f as int, s.f + s.m, s.m as int);
            &&& (lo == s.f + s.m) == (top == 0)
            &&& top != 0 ==> s.f < top < s.f + s.m
        }),
{
    let apery = s.apery_set@;
    let f = s.f as int;
    let m = s.m as int;
    lemma_apery_bounded(s);
    assert(m >= 2);
    let r0 = choose|r: int| 0 <= r < m && #[trigger] apery[r] == f + m;
    lemma_window_scan(apery, f, m, m, r0);
}

/// The running minimum and maximum of [`Semigroup::descent`], by induction on
/// the number of residues scanned.
proof fn lemma_window_scan(apery: Seq<usize>, f: int, m: int, k: int, r0: int)
    requires
        m >= 1,
        f >= 1,
        0 <= k <= apery.len(),
        forall|i: int| 0 <= i < apery.len() ==> #[trigger] apery[i] <= f + m,
        0 <= r0 < apery.len(),
        apery[r0] == f + m,
    ensures
        ({
            let lo = min_apery_above(apery, f, k);
            let top = max_apery_in(apery, f, f + m, k);
            &&& lo == 0 || f < lo <= f + m
            &&& top == 0 || f < top < f + m
            &&& top == 0 ==> (lo == 0 || lo == f + m)
            &&& top != 0 ==> (lo != 0 && lo < f + m)
            &&& k > r0 ==> lo != 0
        }),
    decreases k,
{
    if k > 0 {
        lemma_window_scan(apery, f, m, k - 1, r0);
    }
}


/// Entries of [`shifted_above`] are `w − m` for Apéry elements `w > f`.
proof fn lemma_shifted_members(apery: Seq<usize>, f: int, m: int, k: int)
    requires
        0 <= k <= apery.len(),
        forall|i: int| 0 <= i < apery.len() ==> #[trigger] apery[i] <= f + m,
        f >= 2 * m,
        m >= 1,
    ensures
        forall|j: int| 0 <= j < shifted_above(apery, f, m, k).len()
            ==> 1 <= #[trigger] shifted_above(apery, f, m, k)[j] <= f,
    decreases k,
{
    if k > 0 {
        lemma_shifted_members(apery, f, m, k - 1);
        let prev = shifted_above(apery, f, m, k - 1);
        let cur = shifted_above(apery, f, m, k);
        assert forall|j: int| 0 <= j < cur.len() implies 1 <= #[trigger] cur[j] <= f by {
            if apery[k - 1] > f && j == prev.len() {
                assert(cur[j] == (apery[k - 1] - m) as usize);
            } else {
                assert(cur[j] == prev[j]);
            }
        }
    }
}

impl Semigroup {
    /// Fast descent: unchanged when `f < 2m`; otherwise adjoins `w − m` for
    /// every Apéry element `w > f`.
    pub fn fast_descent(&self) -> (r: Semigroup)
        requires
            self.wf(),
            fits_pair(self.m as int, self.f + self.m),
        ensures
            self.f < 2 * self.m ==> same_semigroup(r, *self),
            self.f >= 2 * self.m ==> generated_by(r, self.gen_set@ + shifted_above(self.apery_set@, self.f as int, self.m as int, self.m as int)),
    {
        proof {
            assert(2 * self.m <= usize::MAX) by (nonlinear_arith)
                requires 4 * (self.m * (self.f + self.m)) <= usize::MAX, self.m >= 1;
        }
        if self.f < 2 * self.m {
            return self.duplicate();
        }
        let m = self.m;
        let f = self.f;
        let ghost apery = self.apery_set@;
        let mut newgen = copy_vec(&self.gen_set);
        let ghost base = newgen@;
        let mut i: usize = 0;
        while i < m
            invariant
                self.wf(),
                m == self.m,
                f == self.f,
                apery == self.apery_set@,
                f >= 2 * m,
                i <= m,
                newgen@ == base + shifted_above(apery, f as int, m as int, i as int),
            decreases m - i,
        {
            let w = self.apery_set[i];
            if w > f {
                newgen.push(w - m);
            }
            i = i + 1;
        }
        proof {
            lemma_apery_bounded(*self);
            lemma_shifted_members(apery, f as int, m as int, m as int);
            lemma_fits_with(*self, shifted_above(apery, f as int, m as int, m as int), self.f + self.m);
        }
        compute(newgen.as_slice())
    }

    /// S/2 = {x : 2x ∈ S}, generated by the `x` in `1..(f + m)/2 + 2m` with `2x ∈ S`.
    pub fn compute_s_over_2(&self) -> (r: Semigroup)
        requires
            self.wf(),
            fits_pair(self.m as int, self.f + 3 * self.m),
        ensures
            generated_by(r, half_list(*self)),
    {
        let ghost p = half_pred(*self);
        proof {
            assert(2 * (self.f + 3 * self.m) <= usize::MAX);
        }
        let top = (self.f + self.m) / 2 + 2 * self.m;
        proof {
            assert(top <= self.f + 3 * self.m);
            assert(filter_upto(p, 1) == filter_upto(p, 0));
        }
        let mut gens: Vec<usize> = Vec::new();
        let mut x: usize = 1;
        while x < top
            invariant
                self.wf(),
                p == half_pred(*self),
                top == (self.f + self.m) / 2 + 2 * self.m,
                2 * top <= usize::MAX,
                1 <= x <= top,
                gens@ == filter_upto(p, x as int),
            decreases top - x,
        {
            if self.element(2 * x) {
                gens.push(x);
            }
            x = x + 1;
        }
        proof {
            lemma_filter_members(p, top as int);
            assert((2 * self.m) % (self.m as int) == 0) by (nonlinear_arith) requires self.m >= 1;
            crate::compute::lemma_multiple_in(self.gen_set@, self.m as int, 2 * self.m);
            assert(half_pred(*self)(self.m as int));
            lemma_filter_nonempty(p, top as int, self.m as int);
            let l = gens@;
            let k = crate::generated::lemma_filter_contains(p, top as int, self.m as int);
            assert forall|i: int| 0 <= i < l.len() implies 1 <= #[trigger] l[i] <= self.f + 3 * self.m by {}
            crate::compute::lemma_fits_below(l, k, self.m as int, self.f + 3 * self.m);
        }
        compute(gens.as_slice())
    }

    /// Adjoins every pseudo-Frobenius number other than `f` as a generator.
    pub fn compute_add_all_pf(&self) -> (r: Semigroup)
        requires
            self.wf(),
            fits_pair(self.m as int, self.f + self.m),
        ensures
            generated_by(r, self.gen_set@ + without(self.pf_set@, self.f as int)),
    {
        let mut gens = copy_vec(&self.gen_set);
        let ghost base = gens@;
        let ghost pf = self.pf_set@;
        let mut k: usize = 0;
        while k < self.pf_set.len()
            invariant
                pf == self.pf_set@,
                k <= pf.len(),
                gens@ == base + without(pf.subrange(0, k as int), self.f as int),
            decreases pf.len() - k,
        {
            let p = self.pf_set[k];
            proof {
                assert(pf.subrange(0, k + 1).drop_last() == pf.subrange(0, k as int));
            }
            if p != self.f {
                gens.push(p);
            }
            k = k + 1;
        }
        proof {
            assert(pf.subrange(0, pf.len() as int) == pf);
            lemma_pf_members(*self);
            lemma_without_members(pf, self.f as int);
            let extra = without(pf, self.f as int);
            assert forall|k: int| 0 <= k < extra.len() implies 1 <= #[trigger] extra[k] <= self.f + self.m by {
                let j = choose|j: int| 0 <= j < pf.len() && pf[j] == extra[k];
                assert(1 <= pf[j] <= self.f);
            }
            lemma_fits_with(*self, extra, self.f + self.m);
        }
        compute(gens.as_slice())
    }

    /// Adjoins every reflected gap (see [`Semigroup::blob`]) as a generator.
    pub fn compute_add_reflected_gaps(&self) -> (r: Semigroup)
        requires
            self.wf(),
            fits_pair(self.m as int, self.f + self.m),
        ensures
            generated_by(r, self.gen_set@ + filter_upto(reflected_pred(self.gen_set@, self.f as int), self.f as int)),
    {
        let mut gens = copy_vec(&self.gen_set);
        let blob = self.blob();
        append_all(&mut gens, &blob);
        proof {
            let p = reflected_pred(self.gen_set@, self.f as int);
            lemma_filter_members(p, self.f as int);
            let extra = blob@;
            assert forall|k: int| 0 <= k < extra.len() implies 1 <= #[trigger] extra[k] <= self.f + self.m by {
                assert(p(extra[k] as int));
            }
            lemma_fits_with(*self, extra, self.f + self.m);
        }
        compute(gens.as_slice())
    }

    /// The canonical ideal K(S), generated by `f − p` for the pseudo-Frobenius
    /// numbers `p ≠ f`; `self` when there is none (S symmetric).
    pub fn canonical_ideal(&self) -> (r: Semigroup)
        requires
            self.wf(),
            small_enough(self.f + self.m),
        ensures
            canonical_list(*self).len() == 0 ==> same_semigroup(r, *self),
            canonical_list(*self).len() > 0 ==> generated_by(r, canonical_list(*self)),
    {
        let ghost pf = self.pf_set@;
        let ghost f = self.f as int;
        proof {
            lemma_pf_members(*self);
        }
        let mut gens: Vec<usize> = Vec::new();
        let mut k: usize = 0;
        while k < self.pf_set.len()
            invariant
                pf == self.pf_set@,
                f == self.f,
                forall|j: int| 0 <= j < pf.len() ==> 1 <= #[trigger] pf[j] <= f,
                k <= pf.len(),
                gens@ == without(pf.subrange(0, k as int), f).map_values(|p: usize| (f - p) as usize),
            decreases pf.len() - k,
        {
            let p = self.pf_set[k];
            proof {
                assert(pf.subrange(0, k + 1).drop_last() == pf.subrange(0, k as int));
            }
            if p != self.f {
                gens.push(self.f - p);
            }
            proof {
                let w = without(pf.subrange(0, k + 1), f);
                let w0 = without(pf.subrange(0, k as int), f);
                assert(gens@ =~= w.map_values(|p: usize| (f - p) as usize)) by {
                    if p != self.f {
                        assert(w == w0.push(p));
                    } else {
                        assert(w == w0);
                    }
                }
            }
            k = k + 1;
        }
        proof {
            assert(pf.subrange(0, pf.len() as int) == pf);
        }
        if gens.len() == 0 {
            return self.duplicate();
        }
        proof {
            lemma_without_members(pf, f);
            let l = gens@;
            let w = without(pf, f);
            assert forall|i: int| 0 <= i < l.len() implies #[trigger] l[i] >= 1 && small_enough(l[i] as int) by {
                let j = choose|j: int| 0 <= j < pf.len() && pf[j] == w[i];
                assert(1 <= pf[j] <= f);
                assert(w[i] as int != f);
                assert(l[i] == (f - w[i]) as usize);
                lemma_small_mono(l[i] as int, self.f + self.m);
            }
        }
        compute_small(gens.as_slice())
    }

    /// The semigroup generated by `m, w₁ + m, w₂, …, w_{m−1}`; `self` when `m < 2`.
    pub fn compute_apery_shift_first(&self) -> (r: Semigroup)
        requires
            self.wf(),
            fits_pair(self.m as int, self.f + 2 * self.m),
        ensures
            self.m < 2 ==> same_semigroup(r, *self),
            self.m >= 2 ==> generated_by(r, apery_shift_list(*self)),
    {
        if self.m < 2 {
            return self.duplicate();
        }
        let m = self.m;
        proof {
            lemma_apery_bounded(*self);
            assert(self.f + 2 * m <= usize::MAX);
        }
        let mut gens: Vec<usize> = Vec::new();
        gens.push(m);
        gens.push(self.apery_set[1] + m);
        let mut i: usize = 2;
        while i < m
            invariant
                self.wf(),
                m == self.m,
                2 <= i <= m,
                gens@ == seq![m, (self.apery_set@[1] + m) as usize] + self.apery_set@.subrange(2, i as int),
            decreases m - i,
        {
            gens.push(self.apery_set[i]);
            i = i + 1;
        }
        proof {
            let l = gens@;
            assert forall|i: int| 0 <= i < l.len() implies 1 <= #[trigger] l[i] <= self.f + 2 * self.m by {
                if i >= 2 {
                    assert(l[i] == self.apery_set@[i]);
                }
            }
            crate::compute::lemma_fits_below(l, 0, self.m as int, self.f + 2 * self.m);
        }
        compute(gens.as_slice())
    }
}

/// Pseudo-Frobenius numbers are gaps in `[1, f]`.
pub proof fn lemma_pf_members(s: Semigroup)
    requires
        s.wf(),
    ensures
        forall|j: int| 0 <= j < s.pf_set@.len() ==> 1 <= #[trigger] s.pf_set@[j] <= s.f,
        forall|j: int| 0 <= j < s.pf_set@.len() ==> !s.contains(#[trigger] s.pf_set@[j] as int),
{
    let p = pf_pred(s.gen_set@);
    assert(s.f + 1 <= usize::MAX) by (nonlinear_arith)
        requires 4 * (s.m * (s.f + s.m)) <= usize::MAX, s.m >= 1;
    lemma_filter_members(p, s.f + 1);
    assert forall|j: int| 0 <= j < s.pf_set@.len() implies 1 <= #[trigger] s.pf_set@[j] <= s.f by {
        assert(p(s.pf_set@[j] as int));
    }
    assert forall|j: int| 0 <= j < s.pf_set@.len() implies !s.contains(#[trigger] s.pf_set@[j] as int) by {
        assert(p(s.pf_set@[j] as int));
    }
}


/// `v` is an Apéry element: `w_{v mod m} = v`.
pub open spec fn is_apery_value(s: Semigroup, v: int) -> bool {
    s.apery_set@[v % (s.m as int)] == v
}

/// The atom `a` qualifies for the ascent at stratum `l` with multiplier `k`:
/// `k·a` is an Apéry element that lands above `m` in the stratum
/// `(f − (l + 1)m, f − lm)`, or equals `f + m`.
pub open spec fn ascent_ok(s: Semigroup, l: int, k: int, a: int) -> bool {
    let v = k * a;
    let m = s.m as int;
    let f = s.f as int;
    &&& (v > m && v + l * m < f && v + (l + 1) * m > f) || v == m + f
    &&& is_apery_value(s, v)
}

/// The largest of the first `j` minimal generators that qualifies at `(l, k)`.
pub open spec fn ascent_max(s: Semigroup, l: int, k: int, j: int) -> Option<int>
    decreases j,
{
    if j <= 0 {
        None
    } else {
        let prev = ascent_max(s, l, k, j - 1);
        let a = s.gen_set@[j - 1] as int;
        if ascent_ok(s, l, k, a) {
            match prev {
                None => Some(a),
                Some(p) => Some(if a > p { a } else { p }),
            }
        } else {
            prev
        }
    }
}

/// The first qualifying atom over the first `t` pairs `(l, k)`, taken in
/// the order `l = 0, 1, …` and, within each, `k = 1, …, level`.
pub open spec fn ascent_pick(s: Semigroup, t: int) -> Option<int>
    decreases t,
{
    if t <= 0 {
        None
    } else {
        match ascent_pick(s, t - 1) {
            Some(w) => Some(w),
            None => ascent_max(s, (t - 1) / (s.level as int), (t - 1) % (s.level as int) + 1, s.gen_set@.len() as int),
        }
    }
}

/// The atom removed by [`Semigroup::ascent`], if any.
pub open spec fn ascent_choice(s: Semigroup) -> Option<int> {
    ascent_pick(s, s.level * s.level)
}

/// Elements in `1..=f + 2m` other than `f + m`.
pub open spec fn without_fm_pred(s: Semigroup) -> spec_fn(int) -> bool {
    |x: int| 1 <= x && x != s.f + s.m && s.contains(x)
}

/// The generators listed by [`Semigroup::ascent`] when it removes `f + m`.
pub open spec fn without_fm_list(s: Semigroup) -> Seq<usize> {
    filter_upto(without_fm_pred(s), s.f + 2 * s.m + 1)
}

/// `r` is what [`Semigroup::ascent`] makes of `s`: `s` itself when no atom
/// qualifies; otherwise, for the chosen atom `w`, `s` with `w` toggled when
/// `w < f + m`, and else the semigroup generated by the elements in
/// `1..=f + 2m` other than `f + m`.
pub open spec fn ascended(r: Semigroup, s: Semigroup) -> bool {
    &&& ascent_choice(s) is None ==> same_semigroup(r, s)
    &&& ascent_choice(s) matches Some(w) ==> {
        if w < s.f + s.m {
            toggled(r, s, w as usize)
        } else if without_fm_list(s).len() == 0 {
            same_semigroup(r, s)
        } else {
            generated_by(r, without_fm_list(s))
        }
    }
}

/// A pick, once made, is kept over longer runs.
pub(crate) proof fn lemma_ascent_pick_stable(s: Semigroup, j: int, t: int)
    requires
        0 <= j <= t,
        ascent_pick(s, j) is Some,
    ensures
        ascent_pick(s, t) == ascent_pick(s, j),
    decreases t,
{
    if t > j {
        lemma_ascent_pick_stable(s, j, t - 1);
    }
}

impl Semigroup {
    /// Ascent, the structural reverse of [`Semigroup::descent`]: for the
    /// first stratum `l` and multiplier `k` (see [`ascent_ok`]) with a
    /// qualifying atom, takes the largest such atom `w`; toggles `w` when
    /// `w < f + m`, and otherwise regenerates from the elements in
    /// `1..=f + 2m` other than `f + m`. Unchanged when nothing qualifies.
    pub fn ascent(&self) -> (r: Semigroup)
        requires
            self.wf(),
            small_enough(self.f + 3 * self.m),
        ensures
            ascended(r, *self),
    {
        let m = self.m;
        let f = self.f;
        let level = self.level;
        let ghost big = (self.f + 2 * self.m) * (self.f + 2 * self.m);
        proof {
            lemma_small_mono(self.f + 2 * self.m, self.f + 3 * self.m);
            lemma_gens_bounded(*self);
            lemma_small_mono(self.f + self.m, self.f + 2 * self.m);
            assert(level * m <= f) by (nonlinear_arith) requires level == f / m, m >= 1;
            assert(level <= f) by (nonlinear_arith) requires level == f / m, m >= 1;
            assert(big <= usize::MAX) by (nonlinear_arith)
                requires 4 * ((self.f + 2 * self.m) * (self.f + 2 * self.m) * (self.f + 2 * self.m)) <= usize::MAX,
                    self.m >= 1, big == (self.f + 2 * self.m) * (self.f + 2 * self.m);
            assert(level * level <= big) by (nonlinear_arith)
                requires level <= f, big == (f + 2 * m) * (f + 2 * m);
        }
        let mut l: usize = 0;
        while l < level
            invariant
                self.wf(),
                small_enough(self.f + 3 * self.m),
                small_enough(self.f + self.m),
                m == self.m,
                f == self.f,
                level == self.level,
                level * m <= f,
                level <= f,
                big == (f + 2 * m) * (f + 2 * m),
                big <= usize::MAX,
                level * level <= big,
                forall|j: int| 0 <= j < self.gen_set@.len() ==> 1 <= #[trigger] self.gen_set@[j] <= f + m,
                l <= level,
                ascent_pick(*self, l * level) is None,
            decreases level - l,
        {
            let mut k: usize = 1;
            while k <= level
                invariant
                    self.wf(),
                    small_enough(self.f + 3 * self.m),
                    small_enough(self.f + self.m),
                    m == self.m,
                    f == self.f,
                    level == self.level,
                    level * m <= f,
                    level <= f,
                    big == (f + 2 * m) * (f + 2 * m),
                    big <= usize::MAX,
                    level * level <= big,
                    forall|j: int| 0 <= j < self.gen_set@.len() ==> 1 <= #[trigger] self.gen_set@[j] <= f + m,
                    l < level,
                    1 <= k <= level + 1,
                    ascent_pick(*self, l * level + k - 1) is None,
                decreases level + 1 - k,
            {
                let mut best: Option<usize> = None;
                let mut j: usize = 0;
                while j < self.gen_set.len()
                    invariant
                        self.wf(),
                        m == self.m,
                        f == self.f,
                        level == self.level,
                        level * m <= f,
                        level <= f,
                        big == (f + 2 * m) * (f + 2 * m),
                        big <= usize::MAX,
                        forall|j: int| 0 <= j < self.gen_set@.len() ==> 1 <= #[trigger] self.gen_set@[j] <= f + m,
                        l < level,
                        1 <= k <= level,
                        j <= self.gen_set@.len(),
                        match best {
                            None => ascent_max(*self, l as int, k as int, j as int) is None,
                            Some(b) => ascent_max(*self, l as int, k as int, j as int) == Some(b as int),
                        },
                    decreases self.gen_set@.len() - j,
                {
                    let a = self.gen_set[j];
                    proof {
                        assert(k * a + l * m + m <= big) by (nonlinear_arith)
                            requires 1 <= k <= level, level <= f, 1 <= a <= f + m, l < level, level * m <= f, m >= 1,
                                big == (f + 2 * m) * (f + 2 * m);
                        assert((l + 1) * m <= level * m) by (nonlinear_arith) requires l < level, m >= 1;
                        assert((l + 1) * m == l * m + m) by (nonlinear_arith);
                    }
                    let v = k * a;
                    let qualifies = ((v > m && v + l * m < f && v + (l + 1) * m > f) || v == m + f) && self.apery_set[v % m] == v;
                    if qualifies {
                        best = match best {
                            None => Some(a),
                            Some(b) => Some(if a > b { a } else { b }),
                        };
                    }
                    j = j + 1;
                }
                proof {
                    crate::matrix::lemma_flat_split(level as int, l as int, k - 1);
                    assert(ascent_pick(*self, l * level + k) == ascent_max(*self, l as int, k as int, self.gen_set@.len() as int));
                }
                if let Some(w) = best {
                    proof {
                        assert(l * level + k <= level * level) by (nonlinear_arith) requires l < level, k <= level;
                        lemma_ascent_pick_stable(*self, l * level + k, level * level);
                    }
                    if w < f + m {
                        return self.toggle(w);
                    }
                    let ghost p = without_fm_pred(*self);
                    proof {
                        assert(f + 2 * m + 1 <= big) by (nonlinear_arith) requires big == (f + 2 * m) * (f + 2 * m), m >= 1;
                    }
                    let top = f + 2 * m;
                    proof {
                        assert(top + 1 <= big) by (nonlinear_arith) requires big == (f + 2 * m) * (f + 2 * m), top == f + 2 * m, m >= 1;
                        assert(filter_upto(p, 1) == filter_upto(p, 0));
                    }
                    let mut elements: Vec<usize> = Vec::new();
                    let mut x: usize = 1;
                    while x <= top
                        invariant
                            self.wf(),
                            m == self.m,
                            f == self.f,
                            top == f + 2 * m,
                            top + 1 <= usize::MAX,
                            p == without_fm_pred(*self),
                            1 <= x <= top + 1,
                            elements@ == filter_upto(p, x as int),
                        decreases top + 1 - x,
                    {
                        if x != f + m && self.element(x) {
                            elements.push(x);
                        }
                        x = x + 1;
                    }
                    if elements.len() == 0 {
                        return self.duplicate();
                    }
                    proof {
                        lemma_filter_members(p, top + 1);
                        let e = elements@;
                        assert forall|i: int| 0 <= i < e.len() implies #[trigger] e[i] >= 1 && small_enough(e[i] as int) by {
                            lemma_small_mono(e[i] as int, self.f + 3 * self.m);
                        }
                    }
                    return compute_small(elements.as_slice());
                }
                k = k + 1;
            }
            proof {
                assert(l * level + level == (l + 1) * level) by (nonlinear_arith);
            }
            l = l + 1;
        }
        self.duplicate()
    }
}


/// Two strictly increasing lists with the same entries are equal.
proof fn lemma_increasing_unique(a: Seq<usize>, b: Seq<usize>)
    requires
        crate::arith::strictly_increasing(a),
        crate::arith::strictly_increasing(b),
        forall|x: int| crate::generated::seq_has(a, x) == crate::generated::seq_has(b, x),
    ensures
        a == b,
    decreases a.len() + b.len(),
{
    if a.len() == 0 || b.len() == 0 {
        if a.len() > 0 {
            assert(crate::generated::seq_has(a, a[0] as int));
        }
        if b.len() > 0 {
            assert(crate::generated::seq_has(b, b[0] as int));
        }
        assert(a =~= b);
    } else {
        assert(crate::generated::seq_has(a, a[0] as int));
        assert(crate::generated::seq_has(b, b[0] as int));
        let ja = choose|j: int| 0 <= j < a.len() && a[j] == b[0];
        let jb = choose|j: int| 0 <= j < b.len() && b[j] == a[0];
        assert(a[0] <= a[ja]);
        assert(b[0] <= b[jb]);
        assert(a[0] == b[0]);
        let ta = a.subrange(1, a.len() as int);
        let tb = b.subrange(1, b.len() as int);
        assert forall|x: int| crate::generated::seq_has(ta, x) == crate::generated::seq_has(tb, x) by {
            if crate::generated::seq_has(ta, x) {
                let j = choose|j: int| 0 <= j < ta.len() && ta[j] == x;
                assert(a[j + 1] == x);
                assert(crate::generated::seq_has(a, x));
                let k = choose|k: int| 0 <= k < b.len() && b[k] == x;
                assert(k != 0);
                assert(tb[k - 1] == x);
            }
            if crate::generated::seq_has(tb, x) {
                let j = choose|j: int| 0 <= j < tb.len() && tb[j] == x;
                assert(b[j + 1] == x);
                assert(crate::generated::seq_has(b, x));
                let k = choose|k: int| 0 <= k < a.len() && a[k] == x;
                assert(k != 0);
                assert(ta[k - 1] == x);
            }
        }
        lemma_increasing_unique(ta, tb);
        assert(a =~= seq![a[0]] + ta);
        assert(b =~= seq![b[0]] + tb);
    }
}

/// A semigroup is determined by its elements: two well-formed records with
/// the same elements agree in every field. In particular [`compute`] gives
/// the same record for any two inputs whose reduced lists generate the same
/// monoid.
pub proof fn lemma_same_elements(a: Semigroup, b: Semigroup)
    requires
        a.wf(),
        b.wf(),
        forall|x: int| #[trigger] a.contains(x) == b.contains(x),
    ensures
        same_semigroup(a, b),
{
    let ga = a.gen_set@;
    let gb = b.gen_set@;
    assert forall|x: int| is_atom(ga, x) == is_atom(gb, x) by {
        assert(in_gen(ga, x) == in_gen(gb, x)) by {
            assert(a.contains(x) == b.contains(x));
        }
        assert forall|y: int| in_gen(ga, y) == in_gen(gb, y) by {
            assert(a.contains(y) == b.contains(y));
        }
    }
    assert forall|x: int| crate::generated::seq_has(ga, x) == crate::generated::seq_has(gb, x) by {
        if crate::generated::seq_has(ga, x) {
            let k = choose|k: int| 0 <= k < ga.len() && ga[k] == x;
            assert(is_atom(ga, ga[k] as int));
        }
        if crate::generated::seq_has(gb, x) {
            let k = choose|k: int| 0 <= k < gb.len() && gb[k] == x;
            assert(is_atom(gb, gb[k] as int));
        }
    }
    lemma_increasing_unique(ga, gb);
    assert(a.m == b.m);
    let m = a.m as int;
    assert forall|r: int| 0 <= r < m implies a.apery_set@[r] == b.apery_set@[r] by {
        assert(apery_min(ga, m, a.apery_set@[r] as int, r));
        assert(apery_min(gb, m, b.apery_set@[r] as int, r));
        let wa = a.apery_set@[r] as int;
        let wb = b.apery_set@[r] as int;
        assert(in_gen(ga, wb)) by {
            assert(a.contains(wb) == b.contains(wb));
        }
        assert(in_gen(gb, wa)) by {
            assert(a.contains(wa) == b.contains(wa));
        }
    }
    assert(a.apery_set@ =~= b.apery_set@);
    if m >= 2 {
        let ra = choose|r: int| 0 <= r < m && #[trigger] a.apery_set@[r] == a.f + m;
        let rb = choose|r: int| 0 <= r < m && #[trigger] b.apery_set@[r] == b.f + m;
        assert(a.apery_set@[rb] <= a.f + m);
        assert(b.apery_set@[ra] <= b.f + m);
    }
    assert(a.f == b.f);
}


/// A common divisor of the first `k` entries divides every combination of them.
proof fn lemma_divides_dot(c: Seq<int>, s: Seq<usize>, k: int, d: int)
    requires
        0 <= k <= s.len(),
        k <= c.len(),
        d >= 1,
        forall|i: int| 0 <= i < k ==> #[trigger] (s[i] as int) % d == 0,
    ensures
        crate::arith::dot(c, s, k) % d == 0,
    decreases k,
{
    if k > 0 {
        lemma_divides_dot(c, s, k - 1, d);
        let x = crate::arith::dot(c, s, k - 1);
        let y = s[k - 1] as int;
        let ci = c[k - 1];
        let qx = x / d;
        let qy = y / d;
        vstd::arithmetic::div_mod::lemma_fundamental_div_mod(x, d);
        vstd::arithmetic::div_mod::lemma_fundamental_div_mod(y, d);
        assert(x + ci * y == (qx + ci * qy) * d) by (nonlinear_arith)
            requires x == d * qx + 0, y == d * qy + 0;
        vstd::arithmetic::div_mod::lemma_mod_multiples_basic(qx + ci * qy, d);
        assert(crate::arith::dot(c, s, k) == (qx + ci * qy) * d);
    } else {
        vstd::arithmetic::div_mod::lemma_mod_multiples_basic(0, d);
        assert(0 * d == 0);
    }
}

/// Lists with the same entries have the same gcd.
proof fn lemma_gcd_same_entries(a: Seq<usize>, b: Seq<usize>)
    requires
        a.len() >= 1,
        b.len() >= 1,
        forall|i: int| 0 <= i < a.len() ==> #[trigger] a[i] >= 1,
        forall|i: int| 0 <= i < b.len() ==> #[trigger] b[i] >= 1,
        forall|x: int| crate::generated::seq_has(a, x) == crate::generated::seq_has(b, x),
    ensures
        crate::arith::gcd_seq(a, a.len() as int) == crate::arith::gcd_seq(b, b.len() as int),
{
    lemma_gcd_divides_other(a, b);
    lemma_gcd_divides_other(b, a);
    let da = crate::arith::gcd_seq(a, a.len() as int) as int;
    let db = crate::arith::gcd_seq(b, b.len() as int) as int;
    crate::compute::lemma_gcd_seq_pos(a, a.len() as int);
    crate::compute::lemma_gcd_seq_pos(b, b.len() as int);
    assert(da == db) by (nonlinear_arith)
        requires db % da == 0, da % db == 0, da >= 1, db >= 1;
}

/// The gcd of `a` divides the gcd of a list `b` whose entries all occur in `a`.
proof fn lemma_gcd_divides_other(a: Seq<usize>, b: Seq<usize>)
    requires
        a.len() >= 1,
        b.len() >= 1,
        a[0] >= 1,
        forall|x: int| crate::generated::seq_has(b, x) ==> crate::generated::seq_has(a, x),
    ensures
        (crate::arith::gcd_seq(b, b.len() as int) as int) % (crate::arith::gcd_seq(a, a.len() as int) as int) == 0,
{
    let da = crate::arith::gcd_seq(a, a.len() as int) as int;
    crate::compute::lemma_gcd_seq_pos(a, a.len() as int);
    assert forall|i: int| 0 <= i < b.len() implies #[trigger] (b[i] as int) % da == 0 by {
        assert(crate::generated::seq_has(b, b[i] as int));
        let j = choose|j: int| 0 <= j < a.len() && a[j] == b[i];
        let q = crate::arith::lemma_gcd_seq_divides(a, a.len() as int, j);
        assert((b[i] as int) % da == 0) by (nonlinear_arith) requires b[i] == q * da, da >= 1, q >= 0;
    }
    let c = crate::arith::lemma_gcd_seq_bezout(b, b.len() as int);
    lemma_divides_dot(c, b, b.len() as int, da);
}

/// [`compute`] depends only on the entries of its input, not on their order
/// or repetitions: two inputs with the same entries give records that agree
/// in every field.
pub proof fn lemma_compute_same_entries(a: Seq<usize>, b: Seq<usize>, ra: Semigroup, rb: Semigroup)
    requires
        a.len() >= 1,
        b.len() >= 1,
        forall|i: int| 0 <= i < a.len() ==> #[trigger] a[i] >= 1,
        forall|i: int| 0 <= i < b.len() ==> #[trigger] b[i] >= 1,
        forall|x: int| crate::generated::seq_has(a, x) == crate::generated::seq_has(b, x),
        generated_by(ra, a),
        generated_by(rb, b),
    ensures
        same_semigroup(ra, rb),
{
    lemma_gcd_same_entries(a, b);
    let d = crate::arith::gcd_seq(a, a.len() as int);
    let xa = reduced(a);
    let xb = reduced(b);
    assert forall|i: int| 0 <= i < xa.len() && xa[i] > 0 implies in_gen(xb, #[trigger] xa[i] as int) by {
        assert(crate::generated::seq_has(a, a[i] as int));
        let j = choose|j: int| 0 <= j < b.len() && b[j] == a[i];
        assert(xb[j] == xa[i]);
        crate::generated::lemma_gen_in(xb, j);
    }
    assert forall|i: int| 0 <= i < xb.len() && xb[i] > 0 implies in_gen(xa, #[trigger] xb[i] as int) by {
        assert(crate::generated::seq_has(b, b[i] as int));
        let j = choose|j: int| 0 <= j < a.len() && a[j] == b[i];
        assert(xa[j] == xb[i]);
        crate::generated::lemma_gen_in(xa, j);
    }
    assert forall|x: int| #[trigger] ra.contains(x) == rb.contains(x) by {
        if in_gen(xa, x) {
            crate::generated::lemma_in_gen_sub_monoid(xa, xb, x);
        }
        if in_gen(xb, x) {
            crate::generated::lemma_in_gen_sub_monoid(xb, xa, x);
        }
    }
    lemma_same_elements(ra, rb);
}


/// `gcd(k·a, k·b) = k·gcd(a, b)`.
proof fn lemma_gcd_scale(a: nat, b: nat, k: nat)
    requires
        k >= 1,
    ensures
        crate::arith::spec_gcd(k * a, k * b) == k * crate::arith::spec_gcd(a, b),
    decreases b,
{
    if b > 0 {
        vstd::arithmetic::div_mod::lemma_truncate_middle(a as int, k as int, b as int);
        assert((k * a) % (k * b) == k * (a % b));
        assert(k * b > 0) by (nonlinear_arith) requires k >= 1, b >= 1;
        lemma_gcd_scale(b, a % b, k);
    } else {
        assert(k * b == 0) by (nonlinear_arith) requires b == 0;
    }
}

/// The list `a` with every entry multiplied by `k`.
pub open spec fn scaled(a: Seq<usize>, k: int) -> Seq<usize> {
    Seq::new(a.len(), |i: int| (k * a[i]) as usize)
}

/// The gcd of a scaled list is the scaled gcd.
proof fn lemma_gcd_seq_scale(a: Seq<usize>, k: nat, n: int)
    requires
        k >= 1,
        1 <= n <= a.len(),
        forall|i: int| 0 <= i < a.len() ==> #[trigger] (k * a[i]) <= usize::MAX,
    ensures
        crate::arith::gcd_seq(scaled(a, k as int), n) == k * crate::arith::gcd_seq(a, n),
    decreases n,
{
    let ka = scaled(a, k as int);
    assert(ka[n - 1] as nat == k * (a[n - 1] as nat));
    if n > 1 {
        lemma_gcd_seq_scale(a, k, n - 1);
        lemma_gcd_scale(crate::arith::gcd_seq(a, n - 1), a[n - 1] as nat, k);
    } else {
        assert(ka[0] as nat == k * (a[0] as nat));
    }
}

/// [`compute`] is unchanged when every entry of its input is multiplied by
/// the same `k ≥ 1`.
pub proof fn lemma_compute_scaled(a: Seq<usize>, k: nat, ra: Semigroup, rk: Semigroup)
    requires
        a.len() >= 1,
        k >= 1,
        forall|i: int| 0 <= i < a.len() ==> #[trigger] a[i] >= 1,
        forall|i: int| 0 <= i < a.len() ==> #[trigger] (k * a[i]) <= usize::MAX,
        generated_by(ra, a),
        generated_by(rk, scaled(a, k as int)),
    ensures
        same_semigroup(ra, rk),
{
    let n = a.len() as int;
    let ka = scaled(a, k as int);
    lemma_gcd_seq_scale(a, k, n);
    crate::compute::lemma_gcd_seq_pos(a, n);
    let d = crate::arith::gcd_seq(a, n) as int;
    assert(crate::arith::gcd_seq(ka, n) == k * d);
    assert forall|i: int| 0 <= i < n implies #[trigger] reduced(ka)[i] == reduced(a)[i] by {
        let x = a[i] as int;
        assert(ka[i] as int == k * x);
        vstd::arithmetic::div_mod::lemma_div_denominator(k * x, k as int, d);
        vstd::arithmetic::div_mod::lemma_div_multiples_vanish(x, k as int);
        assert((k * x) / (k as int) == x);
        assert((k * x) / (k * d) == x / d);
    }
    assert(reduced(ka) =~= reduced(a));
    assert forall|x: int| #[trigger] ra.contains(x) == rk.contains(x) by {
    }
    lemma_same_elements(ra, rk);
}


/// Elements of `⟨a⟩` are multiples of the gcd `d` of `a`, and `y / d` lies
/// in the monoid of the reduced list.
pub(crate) proof fn lemma_in_gen_reduced(a: Seq<usize>, y: int)
    requires
        a.len() >= 1,
        forall|i: int| 0 <= i < a.len() ==> #[trigger] a[i] >= 1,
        in_gen(a, y),
    ensures
        y % (crate::arith::gcd_seq(a, a.len() as int) as int) == 0,
        in_gen(reduced(a), y / (crate::arith::gcd_seq(a, a.len() as int) as int)),
    decreases y,
{
    let n = a.len() as int;
    let d = crate::arith::gcd_seq(a, n) as int;
    crate::compute::lemma_gcd_seq_pos(a, n);
    crate::generated::lemma_in_gen_nonneg(a, y);
    if y == 0 {
        assert(0int % d == 0);
        assert(0int / d == 0);
    } else {
        crate::generated::lemma_in_gen_unfold(a, y);
        let i = choose|i: int| 0 <= i < a.len() && 0 < a[i] <= y && #[trigger] in_gen(a, y - a[i]);
        lemma_in_gen_reduced(a, y - a[i]);
        let q = crate::arith::lemma_gcd_seq_divides(a, n, i);
        let z = y - a[i];
        let qz = z / d;
        vstd::arithmetic::div_mod::lemma_fundamental_div_mod(z, d);
        assert(z == d * qz);
        assert(y == d * (qz + q)) by (nonlinear_arith) requires z == d * qz, y == z + a[i], a[i] == q * d;
        vstd::arithmetic::div_mod::lemma_mod_multiples_basic(qz + q, d);
        vstd::arithmetic::div_mod::lemma_div_multiples_vanish(qz + q, d);
        vstd::arithmetic::div_mod::lemma_div_multiples_vanish(qz, d);
        assert(y % d == 0) by {
            assert((qz + q) * d == d * (qz + q)) by (nonlinear_arith);
        }
        assert(y / d == qz + q);
        assert(reduced(a)[i] == q) by {
            vstd::arithmetic::div_mod::lemma_div_multiples_vanish(q as int, d);
            assert(q * d == d * q) by (nonlinear_arith);
        }
        assert(q >= 1) by (nonlinear_arith) requires a[i] == q * d, a[i] >= 1, d >= 1, q >= 0;
        crate::generated::lemma_add_gen(reduced(a), qz, i);
    }
}

/// `gcd(d, y) = d` when `d` divides `y`.
proof fn lemma_gcd_of_multiple(d: nat, y: nat)
    requires
        d >= 1,
        y % d == 0,
    ensures
        crate::arith::spec_gcd(d, y) == d,
{
    if y > 0 {
        if y == d {
            assert(d % y == 0);
            assert(crate::arith::spec_gcd(d, y) == crate::arith::spec_gcd(y, 0));
            assert(crate::arith::spec_gcd(y, 0) == y);
        } else {
            assert(y > d) by (nonlinear_arith) requires y % d == 0, y > 0, d >= 1, y != d;
            assert(d % y == d) by (nonlinear_arith) requires 0 < d < y;
            assert(crate::arith::spec_gcd(d, y) == crate::arith::spec_gcd(y, d));
            assert(crate::arith::spec_gcd(y, d) == crate::arith::spec_gcd(d, 0));
            assert(crate::arith::spec_gcd(d, 0) == d);
        }
    }
}

/// [`compute`] is unchanged when an element of the generated monoid is
/// appended to its input.
pub proof fn lemma_compute_add_element(a: Seq<usize>, y: usize, ra: Semigroup, ry: Semigroup)
    requires
        a.len() >= 1,
        forall|i: int| 0 <= i < a.len() ==> #[trigger] a[i] >= 1,
        in_gen(a, y as int),
        generated_by(ra, a),
        generated_by(ry, a.push(y)),
    ensures
        same_semigroup(ra, ry),
{
    let n = a.len() as int;
    let b = a.push(y);
    lemma_in_gen_reduced(a, y as int);
    crate::compute::lemma_gcd_seq_pos(a, n);
    let d = crate::arith::gcd_seq(a, n);
    assert(b.subrange(0, n) =~= a);
    assert forall|k: int| 1 <= k <= n implies #[trigger] crate::arith::gcd_seq(b, k) == crate::arith::gcd_seq(a, k) by {
        lemma_gcd_seq_prefix(a, b, k);
    }
    lemma_gcd_of_multiple(d, y as nat);
    assert(crate::arith::gcd_seq(b, n + 1) == crate::arith::spec_gcd(crate::arith::gcd_seq(b, n), b[n] as nat));
    assert(crate::arith::gcd_seq(b, b.len() as int) == d);
    let xa = reduced(a);
    let xb = reduced(b);
    assert forall|i: int| 0 <= i < n implies #[trigger] xb[i] == xa[i] by {}
    assert(xb[n] as int == (y as int) / (d as int));
    assert forall|i: int| 0 <= i < xa.len() && xa[i] > 0 implies in_gen(xb, #[trigger] xa[i] as int) by {
        assert(xb[i] == xa[i]);
        crate::generated::lemma_gen_in(xb, i);
    }
    assert forall|i: int| 0 <= i < xb.len() && xb[i] > 0 implies in_gen(xa, #[trigger] xb[i] as int) by {
        if i < n {
            assert(xb[i] == xa[i]);
            crate::generated::lemma_gen_in(xa, i);
        }
    }
    assert forall|x: int| #[trigger] ra.contains(x) == ry.contains(x) by {
        if in_gen(xa, x) {
            crate::generated::lemma_in_gen_sub_monoid(xa, xb, x);
        }
        if in_gen(xb, x) {
            crate::generated::lemma_in_gen_sub_monoid(xb, xa, x);
        }
    }
    lemma_same_elements(ra, ry);
}

/// The gcd of a prefix depends only on the prefix.
proof fn lemma_gcd_seq_prefix(a: Seq<usize>, b: Seq<usize>, k: int)
    requires
        1 <= k <= a.len(),
        k <= b.len(),
        forall|i: int| 0 <= i < k ==> a[i] == b[i],
    ensures
        crate::arith::gcd_seq(a, k) == crate::arith::gcd_seq(b, k),
    decreases k,
{
    if k > 1 {
        lemma_gcd_seq_prefix(a, b, k - 1);
    }
}

} // verus!
