//! The numerical semigroup generated by a list of numbers, found with a
//! sliding window over the natural numbers that records the Apéry set and
//! the minimal generators in one pass.
use vstd::prelude::*;
use vstd::arithmetic::div_mod::lemma_mod_multiples_vanish;
use crate::arith::{dot, gcd_seq, lemma_gcd_seq_bezout, lemma_seq_sum_bound, lemma_seq_sum_update, seq_sum, sorted, strictly_increasing};
use crate::generated::{
    count_upto, in_gen, in_gen_pred, is_atom, lemma_add_gen, lemma_all_residues_reached, lemma_closed_add,
    lemma_closed_mul, lemma_count_all, lemma_gen_in, lemma_in_gen_step, lemma_in_gen_unfold, lemma_nonneg_comb,
    lemma_positive_ge, residue_reached, seq_has,
};
use crate::semigroup::{apery_min, core_ok, pf_pred, small_enough, Semigroup};
use crate::arith::{gcd_vec, lemma_gcd_seq_divides, lemma_seq_sum_lower, sort_ascending, spec_gcd};
use crate::derived::{
    collect_pf, count_fundamental, count_large_gaps, count_reflected, count_reflected_apery, count_small_gens,
    is_deep, lemma_atom_bound,
};

verus! {

/// `Σ_{i<k} s[i]`.
pub open spec fn psum(s: Seq<usize>, k: int) -> int
    decreases k,
{
    if k <= 0 {
        0
    } else {
        psum(s, k - 1) + s[k - 1]
    }
}

/// `Σ_{i<k} |c[i]|`.
pub open spec fn abs_sum(c: Seq<int>, k: int) -> int
    decreases k,
{
    if k <= 0 {
        0
    } else {
        abs_sum(c, k - 1) + if c[k - 1] >= 0 { c[k - 1] } else { -c[k - 1] }
    }
}

proof fn lemma_abs_sum_bound(c: Seq<int>, k: int, i: int)
    requires
        0 <= i < k,
    ensures
        abs_sum(c, k) >= c[i],
        abs_sum(c, k) >= -c[i],
        abs_sum(c, k) >= 0,
    decreases k,
{
    lemma_abs_sum_nonneg(c, k - 1);
    if i < k - 1 {
        lemma_abs_sum_bound(c, k - 1, i);
    }
}

proof fn lemma_abs_sum_nonneg(c: Seq<int>, k: int)
    ensures
        abs_sum(c, k) >= 0,
    decreases k,
{
    if k > 0 {
        lemma_abs_sum_nonneg(c, k - 1);
    }
}

/// A combination of the multiples `d·n[i]` is `d` times the combination of the `n[i]`.
proof fn lemma_dot_factor(c: Seq<int>, s: Seq<usize>, n: Seq<usize>, d: int, k: int)
    requires
        0 <= k <= s.len(),
        k <= n.len(),
        forall|i: int| 0 <= i < k ==> s[i] == #[trigger] n[i] * d,
    ensures
        dot(c, s, k) == d * dot(c, n, k),
    decreases k,
{
    if k > 0 {
        lemma_dot_factor(c, s, n, d, k - 1);
        assert(c[k - 1] * s[k - 1] == d * (c[k - 1] * n[k - 1])) by (nonlinear_arith)
            requires s[k - 1] == n[k - 1] * d;
        assert(d * dot(c, n, k - 1) + d * (c[k - 1] * n[k - 1]) == d * (dot(c, n, k - 1) + c[k - 1] * n[k - 1])) by (nonlinear_arith);
    }
}

/// Shifting every coefficient by `t` adds `t` times the sum.
proof fn lemma_dot_shift(c: Seq<int>, e: Seq<int>, n: Seq<usize>, t: int, k: int)
    requires
        0 <= k <= c.len(),
        k <= e.len(),
        forall|i: int| 0 <= i < k ==> #[trigger] e[i] == c[i] + t,
    ensures
        dot(e, n, k) == dot(c, n, k) + t * psum(n, k),
    decreases k,
{
    if k > 0 {
        lemma_dot_shift(c, e, n, t, k - 1);
        assert(e[k - 1] * n[k - 1] == c[k - 1] * n[k - 1] + t * n[k - 1]) by (nonlinear_arith)
            requires e[k - 1] == c[k - 1] + t;
        assert(t * psum(n, k - 1) + t * n[k - 1] == t * (psum(n, k - 1) + n[k - 1])) by (nonlinear_arith);
    }
}

/// After dividing a list by its gcd, some element of the generated monoid
/// leaves residue 1 modulo any positive `m`.
pub proof fn lemma_residue_one(input: Seq<usize>, nums: Seq<usize>, m: int) -> (y: int)
    requires
        input.len() >= 1,
        nums.len() == input.len(),
        gcd_seq(input, input.len() as int) > 0,
        forall|i: int| 0 <= i < input.len() ==> #[trigger] input[i] == nums[i] * gcd_seq(input, input.len() as int),
        forall|i: int| 0 <= i < nums.len() ==> #[trigger] nums[i] > 0,
        m >= 1,
    ensures
        in_gen(nums, y),
        y % m == 1int % m,
{
    let n = input.len() as int;
    let d = gcd_seq(input, n) as int;
    let c = lemma_gcd_seq_bezout(input, n);
    lemma_dot_factor(c, input, nums, d, n);
    assert(dot(c, nums, n) == 1) by (nonlinear_arith)
        requires d * dot(c, nums, n) == d, d > 0;
    let t = abs_sum(c, n);
    lemma_abs_sum_nonneg(c, n);
    let e = Seq::new(n as nat, |i: int| c[i] + t * m);
    assert forall|i: int| 0 <= i < n implies e[i] >= 0 by {
        lemma_abs_sum_bound(c, n, i);
        assert(t * m >= t) by (nonlinear_arith) requires t >= 0, m >= 1;
    }
    lemma_dot_shift(c, e, nums, t * m, n);
    lemma_nonneg_comb(nums, e, n);
    let a = t * psum(nums, n);
    let y = dot(e, nums, n);
    assert(y == m * a + 1) by (nonlinear_arith)
        requires y == 1 + (t * m) * psum(nums, n), a == t * psum(nums, n);
    lemma_mod_multiples_vanish(a, 1, m);
    y
}

/// The window slot `p` stands for the number `base + p`: slots below `wi`
/// hold that number when it is an element and `-1` otherwise; slots from
/// `wi` on are either `-1` or hold an element `mx` below the number they
/// stand for.
pub open spec fn window_ok(win: Seq<isize>, gens: Seq<usize>, base: int, wi: int, mx: int) -> bool {
    &&& forall|p: int| 0 <= p < wi ==> #[trigger] win[p] as int == (if in_gen(gens, base + p) { base + p } else { -1 })
    &&& forall|p: int| wi <= p < win.len() ==> (#[trigger] win[p] as int == -1 || (win[p] as int == base + p - mx && in_gen(gens, base + p - mx)))
}

/// Scans `gens[1..]` in order for the first generator `k` with `i − k` an
/// element, reading membership of `i − k` from the window; returns its
/// index, or `gens.len()` when there is none.
fn first_hit(window: &Vec<isize>, wi: usize, gens: &Vec<usize>, Ghost(i): Ghost<int>, Ghost(mx): Ghost<int>) -> (j: usize)
    requires
        gens@.len() >= 1,
        forall|k: int| 0 <= k < gens@.len() ==> 1 <= #[trigger] gens@[k] <= mx,
        wi < window@.len(),
        i - wi >= 0,
        i - wi == 0 || wi >= mx,
        window_ok(window@, gens@, i - wi, wi as int, mx),
    ensures
        1 <= j <= gens@.len(),
        forall|k: int| 1 <= k < j ==> !in_gen(gens@, i - #[trigger] gens@[k]),
        j < gens@.len() ==> in_gen(gens@, i - gens@[j as int]) && wi >= gens@[j as int]
            && window@[wi - gens@[j as int]] as int == i - gens@[j as int],
{
    let mut kk: usize = 1;
    while kk < gens.len()
        invariant
            1 <= kk <= gens@.len(),
            forall|k: int| 0 <= k < gens@.len() ==> 1 <= #[trigger] gens@[k] <= mx,
            wi < window@.len(),
            i - wi >= 0,
            i - wi == 0 || wi >= mx,
            window_ok(window@, gens@, i - wi, wi as int, mx),
            forall|k: int| 1 <= k < kk ==> !in_gen(gens@, i - #[trigger] gens@[k]),
        decreases gens@.len() - kk,
    {
        let k = gens[kk];
        if wi >= k && window[wi - k] >= 0 {
            assert(window@[wi - k] as int == (if in_gen(gens@, i - k) { i - k } else { -1 }));
            return kk;
        }
        if wi < k {
            assert(i < k);
            assert(!in_gen(gens@, i - k));
        } else {
            assert(window@[wi - k] as int == (if in_gen(gens@, i - k) { i - k } else { -1 }));
        }
        kk = kk + 1;
    }
    kk
}

/// The list divided by the gcd of its entries.
pub open spec fn reduced(input: Seq<usize>) -> Seq<usize> {
    Seq::new(input.len(), |i: int| ((input[i] as nat) / gcd_seq(input, input.len() as int)) as usize)
}

/// A list holding two consecutive numbers has gcd 1, so it is its own
/// reduced form.
pub proof fn lemma_reduced_consecutive(l: Seq<usize>, i: int, j: int)
    requires
        0 <= i < l.len(),
        0 <= j < l.len(),
        l[j] == l[i] + 1,
    ensures
        reduced(l) == l,
{
    let n = l.len() as int;
    let g = gcd_seq(l, n);
    let qi = crate::arith::lemma_gcd_seq_divides(l, n, i);
    let qj = crate::arith::lemma_gcd_seq_divides(l, n, j);
    assert(g == 1) by (nonlinear_arith)
        requires l[i] == qi * g, l[j] == qj * g, l[j] == l[i] + 1, g >= 0, qi >= 0, qj >= 0;
    assert forall|k: int| 0 <= k < n implies #[trigger] reduced(l)[k] == l[k] by {
        assert((l[k] as nat) / 1 == l[k]);
    }
    assert(reduced(l) =~= l);
}

/// The gcd of a list with a positive first entry is positive.
pub(crate) proof fn lemma_gcd_seq_pos(s: Seq<usize>, k: int)
    requires
        1 <= k <= s.len(),
        s[0] > 0,
    ensures
        gcd_seq(s, k) > 0,
    decreases k,
{
    if k > 1 {
        lemma_gcd_seq_pos(s, k - 1);
        crate::arith::lemma_gcd_pos(gcd_seq(s, k - 1), s[k - 1] as nat);
    }
}

/// The sizes the scan of [`compute`] works with, for least entry `lo` and
/// largest entry `hi` of the reduced list: the Apéry sum stays below
/// `lo·((lo − 1)·hi + lo)` and the window is `2·hi` wide.
pub open spec fn fits_pair(lo: int, hi: int) -> bool {
    &&& 4 * (lo * ((lo - 1) * hi + lo)) <= usize::MAX
    &&& 4 * hi <= usize::MAX
}

/// Entry `i` is a least entry of `l`.
pub open spec fn is_least(l: Seq<usize>, i: int) -> bool {
    &&& 0 <= i < l.len()
    &&& forall|j: int| 0 <= j < l.len() ==> l[i] <= #[trigger] l[j]
}

/// Every entry of `l` fits the scan together with the least entry `lo`.
pub open spec fn fits_all(l: Seq<usize>, lo: int) -> bool {
    forall|j: int| 0 <= j < l.len() ==> fits_pair(lo, #[trigger] l[j] as int)
}

/// The reduced input of [`compute`] is small enough for its scan.
pub open spec fn compute_fits(l: Seq<usize>) -> bool {
    exists|i: int| is_least(l, i) && fits_all(l, l[i] as int)
}

/// The numerical semigroup generated by `input` once the gcd of its entries
/// is divided out: its minimal generators, Apéry set with respect to the
/// multiplicity, Frobenius number and every derived invariant. The result
/// does not depend on the order or repetition of the entries, on scaling
/// them, or on appending an element of the generated monoid (see
/// `lemma_compute_same_entries`, `lemma_compute_scaled` and
/// `lemma_compute_add_element` in [`crate::manipulators`]).
pub fn compute(input: &[usize]) -> (s: Semigroup)
    requires
        input@.len() >= 1,
        forall|i: int| 0 <= i < input@.len() ==> #[trigger] input@[i] >= 1,
        compute_fits(reduced(input@)),
    ensures
        s.wf(),
        forall|x: int| #[trigger] s.contains(x) == in_gen(reduced(input@), x),
{
    let n = input.len();
    let d = gcd_vec(input);
    proof {
        lemma_gcd_seq_pos(input@, n as int);
    }
    let mut nums: Vec<usize> = Vec::new();
    let mut i: usize = 0;
    while i < n
        invariant
            n == input@.len(),
            d == gcd_seq(input@, n as int),
            d > 0,
            forall|i: int| 0 <= i < input@.len() ==> #[trigger] input@[i] >= 1,
            i <= n,
            nums@.len() == i,
            forall|j: int| 0 <= j < i ==> #[trigger] nums@[j] == input@[j] / d && nums@[j] * d == input@[j]
                && nums@[j] >= 1 && nums@[j] <= input@[j],
        decreases n - i,
    {
        let v = input[i] / d;
        proof {
            let q = lemma_gcd_seq_divides(input@, n as int, i as int);
            assert(v == q) by (nonlinear_arith) requires input@[i as int] == q * d, d > 0, v == input@[i as int] / d;
            assert(q >= 1 && q <= input@[i as int]) by (nonlinear_arith) requires input@[i as int] == q * d, d > 0, input@[i as int] >= 1;
        }
        nums.push(v);
        i = i + 1;
    }
    proof {
        assert(nums@ =~= reduced(input@));
    }
    let sorted = sort_ascending(&nums);
    let m = sorted[0];
    let last = sorted[sorted.len() - 1];
    let ghost g = sorted@;
    proof {
        assert(nums@.contains(m));
        assert(nums@.contains(last));
    }
    let ghost y = lemma_residue_one(input@, nums@, m as int);
    proof {
        assert forall|k: int| 0 <= k < nums@.len() && nums@[k] > 0 implies #[trigger] g.contains(nums@[k]) by {
            assert(nums@.contains(nums@[k]));
        }
        crate::generated::lemma_in_gen_subset(nums@, g, y);
        let j = choose|j: int| 0 <= j < nums@.len() && nums@[j] == last;
        let j0 = choose|j0: int| 0 <= j0 < nums@.len() && nums@[j0] == m;
        assert(m >= 1);
        assert(fits_pair(m as int, last as int)) by {
            let i0 = choose|i0: int| is_least(nums@, i0) && fits_all(nums@, nums@[i0] as int);
            assert(g.contains(nums@[i0]));
            let k0 = choose|k0: int| 0 <= k0 < g.len() && g[k0] == nums@[i0];
            assert(m <= nums@[i0]);
            assert(nums@[i0] <= nums@[j0]);
            assert(fits_pair(nums@[i0] as int, nums@[j] as int));
        }
        // the sorted list and the reduced list generate the same monoid
        assert forall|x: int| #[trigger] in_gen(g, x) == in_gen(nums@, x) by {
            assert forall|k: int| 0 <= k < g.len() && g[k] > 0 implies #[trigger] nums@.contains(g[k]) by {
                assert(g.contains(g[k]));
            }
            if in_gen(g, x) {
                crate::generated::lemma_in_gen_subset(g, nums@, x);
            }
            if in_gen(nums@, x) {
                crate::generated::lemma_in_gen_subset(nums@, g, x);
            }
        }
    }
    let scan = sliding_window(&sorted, Ghost(y));
    let f = scan.f;
    let mut gen_set: Vec<usize> = Vec::new();
    gen_set.push(m);
    let mut k: usize = 0;
    while k < scan.atoms.len()
        invariant
            scan.scan_ok(g),
            g[0] == m,
            k <= scan.atoms@.len(),
            gen_set@.len() == k + 1,
            gen_set@[0] == m,
            forall|j: int| 1 <= j <= k ==> #[trigger] gen_set@[j] == scan.atoms@[j - 1],
        decreases scan.atoms@.len() - k,
    {
        gen_set.push(scan.atoms[k]);
        k = k + 1;
    }
    proof {
        let gs = gen_set@;
        let atoms = scan.atoms@;
        assert(strictly_increasing(gs)) by {
            assert forall|a: int, b: int| 0 <= a < b < gs.len() implies gs[a] < gs[b] by {
                if a == 0 {
                    assert(gs[b] == atoms[b - 1]);
                } else {
                    assert(gs[a] == atoms[a - 1] && gs[b] == atoms[b - 1]);
                }
            }
        }
        assert forall|x: int| #[trigger] is_atom(g, x) implies seq_has(gs, x) by {
            if x == m {
                assert(gs[0] == x);
            } else {
                let j = choose|j: int| 0 <= j < atoms.len() && atoms[j] == x;
                assert(gs[j + 1] == x);
            }
        }
        assert forall|j: int| 0 <= j < gs.len() && gs[j] > 0 implies in_gen(g, #[trigger] gs[j] as int) by {
            if j == 0 {
                crate::generated::lemma_gen_in(g, 0);
            } else {
                assert(gs[j] == atoms[j - 1]);
                assert(is_atom(g, atoms[j - 1] as int));
            }
        }
        assert forall|x: int| #[trigger] in_gen(gs, x) == in_gen(g, x) by {
            if in_gen(gs, x) {
                crate::generated::lemma_in_gen_sub_monoid(gs, g, x);
            }
            if in_gen(g, x) {
                crate::generated::lemma_generated_by_atoms(g, gs, x);
            }
        }
        assert forall|k: int| 0 <= k < gs.len() implies is_atom(gs, #[trigger] gs[k] as int) by {
            if k == 0 {
                assert(is_atom(g, m as int)) by {
                    crate::generated::lemma_gen_in(g, 0);
                    assert forall|a: int| 0 < a < m implies !(#[trigger] in_gen(g, a) && in_gen(g, m - a)) by {
                        if in_gen(g, a) {
                            lemma_positive_ge(g, m as int, a);
                        }
                    }
                }
            } else {
                assert(gs[k] == atoms[k - 1]);
                assert(is_atom(g, atoms[k - 1] as int));
            }
        }
        assert forall|x: int| #[trigger] is_atom(gs, x) implies seq_has(gs, x) by {
            assert(in_gen(gs, x) == in_gen(g, x));
            assert forall|a: int| 0 < a < x implies !(#[trigger] in_gen(g, a) && in_gen(g, x - a)) by {
                assert(in_gen(gs, a) == in_gen(g, a));
                assert(in_gen(gs, x - a) == in_gen(g, x - a));
            }
            assert(is_atom(g, x));
        }
        assert forall|r: int| 0 <= r < m implies apery_min(gs, m as int, #[trigger] scan.apery@[r] as int, r) by {
            assert(apery_min(g, m as int, scan.apery@[r] as int, r));
        }
        assert(core_ok(m as int, f as int, gs, scan.apery@));
        assert(count_upto(in_gen_pred(gs), f + 1) == count_upto(in_gen_pred(g), f + 1)) by {
            assert(in_gen_pred(gs) =~= in_gen_pred(g));
        }
        assert forall|x: int| #[trigger] in_gen(gs, x) == in_gen(reduced(input@), x) by {
            assert(in_gen(g, x) == in_gen(nums@, x));
        }
    }
    assemble(m, f, gen_set, scan.apery, scan.sigma, scan.sum)
}

/// Some entry of a nonempty list is a least one.
proof fn lemma_least_exists(l: Seq<usize>, k: int) -> (i: int)
    requires
        1 <= k <= l.len(),
    ensures
        0 <= i < k,
        forall|j: int| 0 <= j < k ==> l[i] <= #[trigger] l[j],
    decreases k,
{
    if k == 1 {
        0
    } else {
        let i0 = lemma_least_exists(l, k - 1);
        if l[k - 1] < l[i0] { k - 1 } else { i0 }
    }
}

/// Inputs whose entries are small enough in themselves (`4n³` fits) meet
/// [`compute_fits`].
pub proof fn lemma_small_fits(l: Seq<usize>)
    requires
        l.len() >= 1,
        forall|i: int| 0 <= i < l.len() ==> #[trigger] l[i] >= 1 && small_enough(l[i] as int),
    ensures
        compute_fits(reduced(l)),
{
    let n = l.len() as int;
    let r = reduced(l);
    lemma_gcd_seq_pos(l, n);
    let d = gcd_seq(l, n) as int;
    let i0 = lemma_least_exists(r, n);
    assert forall|j: int| 0 <= j < r.len() implies fits_pair(r[i0] as int, #[trigger] r[j] as int) by {
        let lo = r[i0] as int;
        let hi = r[j] as int;
        let b = l[j] as int;
        assert(hi <= b) by (nonlinear_arith) requires hi == b / d, d >= 1, b >= 1;
        assert(lo <= hi);
        assert(0 <= lo);
        assert(lo * ((lo - 1) * hi + lo) <= b * b * b) by (nonlinear_arith)
            requires 0 <= lo <= hi, hi <= b;
        assert(hi <= b * b * b) by (nonlinear_arith) requires 0 <= hi <= b, b >= 1;
    }
    assert(is_least(r, i0));
}

/// A list with entries in `[1, hi]`, one of them at most `lo`, meets
/// [`compute_fits`] when `fits_pair(lo, hi)` holds: dividing by the gcd only
/// makes the least entry and the others smaller.
pub proof fn lemma_fits_below(l: Seq<usize>, k: int, lo: int, hi: int)
    requires
        l.len() >= 1,
        forall|i: int| 0 <= i < l.len() ==> 1 <= #[trigger] l[i] <= hi,
        0 <= k < l.len(),
        l[k] <= lo,
        fits_pair(lo, hi),
    ensures
        compute_fits(reduced(l)),
{
    let n = l.len() as int;
    let r = reduced(l);
    lemma_gcd_seq_pos(l, n);
    let d = gcd_seq(l, n) as int;
    let i0 = lemma_least_exists(r, n);
    let low = r[i0] as int;
    assert(r[k] as int <= l[k]) by (nonlinear_arith) requires r[k] as int == (l[k] as int) / d, d >= 1, l[k] >= 1;
    assert(low <= lo);
    assert(low >= 1) by {
        let q = crate::arith::lemma_gcd_seq_divides(l, n, i0);
        assert(l[i0] as int == q * d);
        assert(q >= 1) by (nonlinear_arith) requires l[i0] as int == q * d, l[i0] >= 1, d >= 1, q >= 0;
        vstd::arithmetic::div_mod::lemma_div_multiples_vanish(q as int, d);
        assert(q * d == d * q) by (nonlinear_arith);
    }
    assert(lo >= 1);
    assert forall|j: int| 0 <= j < r.len() implies fits_pair(low, #[trigger] r[j] as int) by {
        let h = r[j] as int;
        let b = l[j] as int;
        assert(h <= b) by (nonlinear_arith) requires h == b / d, d >= 1, b >= 1;
        assert(h >= 0);
        assert(low * ((low - 1) * h + low) <= lo * ((lo - 1) * hi + lo)) by (nonlinear_arith)
            requires 1 <= low <= lo, 0 <= h <= hi;
    }
    assert(is_least(r, i0));
}

/// [`compute`] on entries small enough in themselves.
pub(crate) fn compute_small(input: &[usize]) -> (s: Semigroup)
    requires
        input@.len() >= 1,
        forall|i: int| 0 <= i < input@.len() ==> #[trigger] input@[i] >= 1 && small_enough(input@[i] as int),
    ensures
        s.wf(),
        forall|x: int| #[trigger] s.contains(x) == in_gen(reduced(input@), x),
{
    proof {
        lemma_small_fits(input@);
    }
    compute(input)
}

/// Whether [`fits_pair`] holds, with checked arithmetic.
fn fits_pair_exec(lo: usize, hi: usize) -> (b: bool)
    requires
        lo >= 1,
        hi >= 1,
    ensures
        b == fits_pair(lo as int, hi as int),
{
    let a = match (lo - 1).checked_mul(hi) {
        Some(a) => a,
        None => {
            assert(lo * ((lo - 1) * hi + lo) >= (lo - 1) * hi) by (nonlinear_arith) requires lo >= 1, hi >= 1;
            return false;
        },
    };
    let b = match a.checked_add(lo) {
        Some(b) => b,
        None => {
            assert(lo * ((lo - 1) * hi + lo) >= (lo - 1) * hi + lo) by (nonlinear_arith) requires lo >= 1, hi >= 1;
            return false;
        },
    };
    let c = match lo.checked_mul(b) {
        Some(c) => c,
        None => {
            return false;
        },
    };
    let ok1 = c <= usize::MAX / 4;
    let ok2 = hi <= usize::MAX / 4;
    ok1 && ok2
}

/// The input divided by the gcd of its entries.
fn reduce_exec(input: &[usize]) -> (nums: Vec<usize>)
    requires
        input@.len() >= 1,
        forall|i: int| 0 <= i < input@.len() ==> #[trigger] input@[i] >= 1,
    ensures
        nums@ == reduced(input@),
        forall|i: int| 0 <= i < nums@.len() ==> #[trigger] nums@[i] >= 1,
{
    let n = input.len();
    let d = gcd_vec(input);
    proof {
        lemma_gcd_seq_pos(input@, n as int);
    }
    let mut nums: Vec<usize> = Vec::new();
    let mut i: usize = 0;
    while i < n
        invariant
            n == input@.len(),
            d == gcd_seq(input@, n as int),
            d > 0,
            forall|i: int| 0 <= i < input@.len() ==> #[trigger] input@[i] >= 1,
            i <= n,
            nums@.len() == i,
            forall|j: int| 0 <= j < i ==> #[trigger] nums@[j] == input@[j] / d && nums@[j] >= 1,
        decreases n - i,
    {
        let v = input[i] / d;
        proof {
            let q = lemma_gcd_seq_divides(input@, n as int, i as int);
            assert(v == q) by (nonlinear_arith) requires input@[i as int] == q * d, d > 0, v == input@[i as int] / d;
            assert(q >= 1) by (nonlinear_arith) requires input@[i as int] == q * d, d > 0, input@[i as int] >= 1;
        }
        nums.push(v);
        i = i + 1;
    }
    proof {
        assert(nums@ =~= reduced(input@));
    }
    nums
}

/// [`compute`] when the reduced input is small enough for its scan
/// ([`compute_fits`]), and `None` otherwise.
pub fn compute_checked(input: &[usize]) -> (r: Option<Semigroup>)
    requires
        input@.len() >= 1,
        forall|i: int| 0 <= i < input@.len() ==> #[trigger] input@[i] >= 1,
    ensures
        r is None <==> !compute_fits(reduced(input@)),
        r matches Some(s) ==> s.wf() && forall|x: int| #[trigger] s.contains(x) == in_gen(reduced(input@), x),
{
    let nums = reduce_exec(input);
    let n = nums.len();
    let mut i0: usize = 0;
    let mut k: usize = 1;
    while k < n
        invariant
            n == nums@.len(),
            nums@ == reduced(input@),
            n >= 1,
            1 <= k <= n,
            i0 < k,
            forall|j: int| 0 <= j < k ==> nums@[i0 as int] <= #[trigger] nums@[j],
        decreases n - k,
    {
        if nums[k] < nums[i0] {
            i0 = k;
        }
        k = k + 1;
    }
    let lo = nums[i0];
    proof {
        assert(is_least(nums@, i0 as int));
    }
    let mut j: usize = 0;
    while j < n
        invariant
            n == nums@.len(),
            nums@ == reduced(input@),
            j <= n,
            i0 < n,
            is_least(nums@, i0 as int),
            lo == nums@[i0 as int],
            lo >= 1,
            forall|q: int| 0 <= q < n ==> #[trigger] nums@[q] >= 1,
            forall|q: int| 0 <= q < j ==> fits_pair(lo as int, #[trigger] nums@[q] as int),
        decreases n - j,
    {
        if !fits_pair_exec(lo, nums[j]) {
            proof {
                assert forall|i: int| is_least(nums@, i) implies !fits_all(nums@, nums@[i] as int) by {
                    assert(nums@[i] <= nums@[i0 as int]);
                    assert(nums@[i0 as int] <= nums@[i]);
                    assert(!fits_pair(nums@[i] as int, nums@[j as int] as int));
                    assert(0 <= j < nums@.len());
                }
                assert(!compute_fits(nums@));
            }
            return None;
        }
        j = j + 1;
    }
    proof {
        assert(fits_all(nums@, lo as int));
    }
    Some(compute(input))
}

/// Builds the record from its core data, computing every derived field.
fn assemble(m: usize, f: usize, gen_set: Vec<usize>, apery: Vec<usize>, sigma: usize, sum: usize) -> (s: Semigroup)
    requires
        core_ok(m as int, f as int, gen_set@, apery@),
        sigma == count_upto(in_gen_pred(gen_set@), f + 1),
        sum == seq_sum(apery@),
    ensures
        s.wf(),
        s.gen_set@ == gen_set@,
        s.apery_set@ == apery@,
        s.m == m,
        s.f == f,
{
    let ghost gs = gen_set@;
    let e = gen_set.len();
    let max_gen = gen_set[e - 1];
    proof {
        assert forall|r: int| 0 <= r < m implies #[trigger] apery@[r] >= r by {
            assert(apery_min(gs, m as int, apery@[r] as int, r));
            let w = apery@[r] as int;
            assert(w % (m as int) <= w) by (nonlinear_arith) requires w >= 0, m >= 1;
        }
        lemma_seq_sum_lower(apery@);
        assert((m - 1) * m <= 4 * (m * (f + m))) by (nonlinear_arith) requires m >= 1;
        assert((m - 1) * m == m * (m - 1)) by (nonlinear_arith);
        assert forall|k: int| 0 <= k < gs.len() implies #[trigger] gs[k] <= f + m by {
            lemma_atom_bound(gs, m as int, f as int, apery@, gs[k] as int);
        }
    }
    let half = ((m - 1) * m) / 2;
    let g = (sum - half) / m;
    let r = count_reflected(&apery, m, f, Ghost(gs));
    let pf_set = collect_pf(&apery, m, f, &gen_set);
    let t = pf_set.len();
    let es = count_small_gens(&gen_set, m, f);
    let rl = count_large_gaps(&apery, m, f, Ghost(gs));
    let ra = count_reflected_apery(&apery, m, f, Ghost(gs));
    let fg = count_fundamental(&apery, m, f, Ghost(gs));
    let deep = is_deep(&apery, m, f, Ghost(gs));
    proof {
        crate::generated::lemma_filter_len(pf_pred(gs), f + 1);
        lemma_seq_sum_bound(apery@, f + m);
        assert(g <= f + m) by (nonlinear_arith)
            requires g == (sum - half) / (m as int), sum <= m * (f + m), half >= 0, sum >= half, m >= 1;
        assert(f + t + 2 * g <= usize::MAX) by (nonlinear_arith)
            requires t <= f + 1, g <= f + m, 4 * (m * (f + m)) <= usize::MAX, m >= 1;
    }
    let is_symmetric = t == 1;
    let is_almost_symmetric = f + t == 2 * g;
    Semigroup {
        e,
        f,
        m,
        t,
        r,
        es,
        rl,
        ae: max_gen,
        ra,
        fg,
        sigma,
        g,
        max_gen,
        gen_set,
        apery_set: apery,
        apery_sum: sum,
        pf_set,
        mu: f % m,
        level: f / m,
        is_symmetric,
        is_almost_symmetric,
        deep,
    }
}

/// Apéry bookkeeping while scanning up to `i`: `w = 0` records that no
/// element of residue `r` lies below `i`; otherwise `w` is the least element
/// of residue `r`, and it lies below `i`.
pub open spec fn apery_progress(gens: Seq<usize>, m: int, w: int, r: int, i: int) -> bool {
    if w == 0 {
        forall|x: int| #[trigger] in_gen(gens, x) && x % m == r ==> x >= i
    } else {
        w < i && apery_min(gens, m, w, r)
    }
}

/// Multiples of the first generator are elements.
pub proof fn lemma_multiple_in(gens: Seq<usize>, m: int, x: int)
    requires
        gens.len() >= 1,
        gens[0] == m,
        m >= 1,
        x >= 0,
        x % m == 0,
    ensures
        in_gen(gens, x),
{
    lemma_gen_in(gens, 0);
    lemma_closed_mul(gens, (x / m) as nat, m);
    assert(x == (x / m) * m) by (nonlinear_arith) requires x % m == 0, m >= 1;
}

/// Adding a multiple of the first generator to an element of the same
/// residue class gives an element.
pub proof fn lemma_same_class_above(gens: Seq<usize>, m: int, w: int, x: int)
    requires
        gens.len() >= 1,
        gens[0] == m,
        m >= 1,
        in_gen(gens, w),
        w <= x,
        x % m == w % m,
    ensures
        in_gen(gens, x),
{
    assert((x - w) % m == 0) by {
        assert(x == m * (x / m) + x % m) by (nonlinear_arith) requires m >= 1;
        assert(w == m * (w / m) + w % m) by (nonlinear_arith) requires m >= 1;
        assert(x - w == m * (x / m - w / m)) by (nonlinear_arith)
            requires x == m * (x / m) + x % m, w == m * (w / m) + w % m, x % m == w % m;
        vstd::arithmetic::div_mod::lemma_mod_multiples_basic(x / m - w / m, m);
        assert(m * (x / m - w / m) == (x / m - w / m) * m) by (nonlinear_arith);
    }
    lemma_multiple_in(gens, m, x - w);
    lemma_closed_add(gens, w, x - w);
}

/// What the scan hands back: the Apéry set, the atoms other than `m` in
/// increasing order, the Frobenius number, the number of elements in
/// `0..=f` and the sum of the Apéry set.
struct Scan {
    apery: Vec<usize>,
    atoms: Vec<usize>,
    f: usize,
    sigma: usize,
    sum: usize,
}

impl Scan {
    spec fn scan_ok(&self, g: Seq<usize>) -> bool {
        let m = g[0] as int;
        let f = self.f as int;
        let ap = self.apery@;
        &&& ap.len() == m
        &&& forall|r: int| 0 <= r < m ==> apery_min(g, m, #[trigger] ap[r] as int, r)
        &&& forall|r: int| 0 <= r < m ==> #[trigger] ap[r] <= f + m
        &&& (m == 1 ==> f == 0)
        &&& (m >= 2 ==> exists|r: int| 0 <= r < m && #[trigger] ap[r] == f + m)
        &&& 4 * (m * (f + m)) <= usize::MAX
        &&& strictly_increasing(self.atoms@)
        &&& forall|k: int| 0 <= k < self.atoms@.len() ==> is_atom(g, #[trigger] self.atoms@[k] as int) && self.atoms@[k] > m
        &&& forall|x: int| #[trigger] is_atom(g, x) && x != m ==> seq_has(self.atoms@, x)
        &&& self.sigma == count_upto(in_gen_pred(g), f + 1)
        &&& self.sum == seq_sum(ap)
    }
}

/// The scan of the natural numbers from `m` upward with a window of width
/// `2·max(gens)`: returns the Apéry set with respect to `m = gens[0]`, the
/// minimal generators other than `m` in increasing order, the Frobenius
/// number, the number of elements in `0..=f` and the sum of the Apéry set.
fn sliding_window(gens: &Vec<usize>, Ghost(y): Ghost<int>) -> (res: Scan)
    requires
        gens@.len() >= 1,
        sorted(gens@),
        gens@[0] >= 1,
        fits_pair(gens@[0] as int, gens@[gens@.len() - 1] as int),
        in_gen(gens@, y),
        y % (gens@[0] as int) == 1int % (gens@[0] as int),
    ensures
        res.scan_ok(gens@),
{
    let n = gens.len();
    let m = gens[0];
    let mx = gens[n - 1];
    let ghost g = gens@;
    let ghost big: int = (m - 1) * mx;
    proof {
        assert forall|k: int| 0 <= k < n implies m <= #[trigger] g[k] <= mx by {}
        assert(big >= m - 1) by (nonlinear_arith) requires big == (m - 1) * mx, m >= 1, mx >= 1;
        assert(4 * (m * (big + m)) <= usize::MAX);
        assert forall|r: int| 0 <= r < m implies #[trigger] residue_reached(g, m as int, big, r) by {
            lemma_all_residues_reached(g, m as int, mx as int, y, r);
        }
    }
    let width = 2 * mx;
    let mut aperyset: Vec<usize> = Vec::new();
    let mut r0: usize = 0;
    while r0 < m
        invariant
            r0 <= m,
            aperyset@.len() == r0,
            forall|r: int| 0 <= r < r0 ==> aperyset@[r] == 0,
        decreases m - r0,
    {
        aperyset.push(0);
        r0 = r0 + 1;
    }
    let mut window: Vec<isize> = Vec::new();
    let mut p0: usize = 0;
    while p0 < width
        invariant
            p0 <= width,
            window@.len() == p0,
            forall|p: int| 0 <= p < p0 ==> window@[p] == (if p == 0 { 0isize } else { -1isize }),
        decreases width - p0,
    {
        if p0 == 0 {
            window.push(0);
        } else {
            window.push(-1);
        }
        p0 = p0 + 1;
    }
    let mut count_set: usize = 1;
    let mut windowindex: usize = m;
    let mut runlength: usize = 0;
    let mut max_apery: usize = m;
    let mut sum_apery: usize = 0;
    let mut genset: Vec<usize> = Vec::new();
    let mut i: usize = m;
    proof {
        assert forall|p: int| 0 <= p < m implies #[trigger] window@[p] as int == (if in_gen(g, 0 + p) { 0 + p } else { -1 }) by {
            if p > 0 && in_gen(g, p) {
                lemma_positive_ge(g, m as int, p);
            }
        }
        assert forall|r: int| 1 <= r < m implies apery_progress(g, m as int, #[trigger] aperyset@[r] as int, r, m as int) by {
            assert forall|x: int| #[trigger] in_gen(g, x) && x % (m as int) == r implies x >= m by {
                assert(0int % (m as int) == 0);
                if x > 0 {
                    lemma_positive_ge(g, m as int, x);
                } else {
                    assert(x == 0);
                }
            }
        }
        assert(count_upto(in_gen_pred(g), m as int) == 1) by {
            lemma_count_small(g, m as int, m as int);
        }
        assert(seq_sum(aperyset@) == 0) by {
            lemma_seq_sum_bound(aperyset@, 0);
        }
        assert forall|x: int| #[trigger] is_atom(g, x) && m < x < m implies seq_has(genset@, x) by {}
    }
    while runlength < m
        invariant
            g == gens@,
            n == g.len(),
            n >= 1,
            m == g[0],
            mx == g[n - 1],
            1 <= m <= mx,
            sorted(g),
            forall|k: int| 0 <= k < n ==> m <= #[trigger] g[k] <= mx,
            big == (m - 1) * mx,
            big >= 0,
            4 * (m * (big + m)) <= usize::MAX,
            4 * mx <= usize::MAX,
            forall|r: int| 0 <= r < m ==> #[trigger] residue_reached(g, m as int, big, r),
            width == 2 * mx,
            window@.len() == width,
            m <= i <= big + m + 1,
            windowindex < width,
            i >= windowindex,
            i == windowindex || windowindex >= mx,
            window_ok(window@, g, i - windowindex, windowindex as int, mx as int),
            aperyset@.len() == m,
            aperyset@[0] == 0,
            forall|r: int| 1 <= r < m ==> apery_progress(g, m as int, #[trigger] aperyset@[r] as int, r, i as int),
            forall|r: int| 0 <= r < m ==> #[trigger] aperyset@[r] <= big,
            count_set == count_upto(in_gen_pred(g), i as int),
            sum_apery == seq_sum(aperyset@),
            m <= max_apery,
            max_apery == m || max_apery <= big,
            forall|r: int| 0 <= r < m ==> #[trigger] aperyset@[r] <= max_apery,
            max_apery == m || exists|r: int| 0 <= r < m && #[trigger] aperyset@[r] == max_apery,
            runlength <= i - m,
            runlength <= m,
            forall|x: int| i - runlength <= x < i ==> #[trigger] in_gen(g, x),
            runlength + big + 1 >= i,
            runlength == i - m || !in_gen(g, i - runlength - 1),
            strictly_increasing(genset@),
            forall|k: int| 0 <= k < genset@.len() ==> is_atom(g, #[trigger] genset@[k] as int) && m < genset@[k] < i,
            forall|x: int| #[trigger] is_atom(g, x) && m < x < i ==> seq_has(genset@, x),
        decreases big + m + 1 - i,
    {
        let residue = i % m;
        let ghost base = i - windowindex;
        let ghost old_ap = aperyset@;
        let ghost old_gens = genset@;
        let mut hit = false;
        let mut pushed = false;
        if residue == 0 {
            hit = true;
            proof {
                lemma_multiple_in(g, m as int, i as int);
                if i > m {
                    vstd::arithmetic::div_mod::lemma_mod_sub_multiples_vanish(i as int, m as int);
                    lemma_multiple_in(g, m as int, i - m);
                    lemma_gen_in(g, 0);
                    assert(in_gen(g, m as int) && in_gen(g, i - m));
                }
                assert(!is_atom(g, i as int) || i == m);
            }
        } else if aperyset[residue] > 0 && i > aperyset[residue] {
            hit = true;
            proof {
                let w = aperyset@[residue as int] as int;
                assert(apery_progress(g, m as int, w, residue as int, i as int));
                lemma_same_class_above(g, m as int, w, i as int);
                assert(w > 0);
                assert((i - w) % (m as int) == 0int % (m as int)) by {
                    assert(i as int % (m as int) == w % (m as int));
                    vstd::arithmetic::div_mod::lemma_sub_mod_noop(i as int, w, m as int);
                }
                lemma_multiple_in(g, m as int, i - w);
                assert(in_gen(g, w) && in_gen(g, i - w));
                assert(!is_atom(g, i as int));
            }
        } else {
            let j = first_hit(&window, windowindex, gens, Ghost(i as int), Ghost(mx as int));
            proof {
                assert(aperyset@[residue as int] == 0);
                assert(apery_progress(g, m as int, 0, residue as int, i as int));
                if i >= m {
                    assert(!in_gen(g, i - m)) by {
                        if in_gen(g, i - m) {
                            assert((i - m) % (m as int) == residue as int) by (nonlinear_arith)
                                requires residue == i % m, m >= 1, i >= m;
                        }
                    }
                }
            }
            if j < n {
                let k = gens[j];
                hit = true;
                aperyset.set(residue, i);
                proof {
                    lemma_in_gen_step(g, i as int, j as int);
                    lemma_seq_sum_update(old_ap, residue as int, i);
                    assert forall|x: int| #[trigger] in_gen(g, x) && x % (m as int) == residue as int implies x >= i by {}
                    assert(apery_min(g, m as int, i as int, residue as int));
                }
                proof {
                    assert(residue_reached(g, m as int, big, residue as int));
                    let x = choose|x: int| #[trigger] in_gen(g, x) && x <= big && x % (m as int) == residue as int;
                    assert(i <= big);
                    lemma_seq_sum_bound(aperyset@, big);
                    assert(m * big <= m * (big + m)) by (nonlinear_arith) requires m >= 1, big >= 0;
                }
                sum_apery = sum_apery + i;
                let ghost old_max = max_apery;
                if i > max_apery {
                    max_apery = i;
                }
                proof {
                    if max_apery == i {
                        assert(aperyset@[residue as int] == max_apery);
                    } else if old_max != m {
                        let r1 = choose|r1: int| 0 <= r1 < m && #[trigger] old_ap[r1] == old_max;
                        assert(r1 != residue);
                        assert(aperyset@[r1] == max_apery);
                    }
                }
                if window[windowindex - k] == 0 {
                    genset.push(i);
                    pushed = true;
                    proof {
                        assert(i == k);
                        lemma_pushed_is_atom(g, m as int, i as int, j as int);
                        assert forall|a: int| 0 <= a < genset@.len() - 1 implies #[trigger] genset@[a] == old_gens[a] by {}
                    }
                } else {
                    proof {
                        assert(i - k > 0);
                        lemma_gen_in(g, j as int);
                        assert(in_gen(g, k as int) && in_gen(g, i - k));
                        assert(!is_atom(g, i as int));
                    }
                }
            } else {
                proof {
                    lemma_no_decomposition(g, m as int, i as int);
                }
            }
        }
        proof {
            assert(hit == in_gen(g, i as int));
            if !hit {
                // every number above `big` is an element
                if i > big {
                    let r = residue as int;
                    assert(residue_reached(g, m as int, big, r));
                    let x = choose|x: int| #[trigger] in_gen(g, x) && x <= big && x % (m as int) == r;
                    assert(r != 0);
                    assert(apery_progress(g, m as int, aperyset@[r] as int, r, i as int));
                    assert(false);
                }
            }
            if pushed {
                assert forall|x: int| #[trigger] is_atom(g, x) && m < x < i + 1 implies seq_has(genset@, x) by {
                    if x < i {
                        let jj = choose|jj: int| 0 <= jj < old_gens.len() && old_gens[jj] == x;
                        assert(genset@[jj] == x);
                    } else {
                        assert(genset@[genset@.len() - 1] == x);
                    }
                }
            } else {
                assert(!is_atom(g, i as int) || i == m);
                assert(genset@ == old_gens);
            }
            // the slot for `i` now agrees with membership of `i`
            if !hit {
                let wi = windowindex as int;
                if window@[wi] as int != -1 {
                    assert(in_gen(g, base + wi - mx));
                    lemma_add_gen(g, base + wi - mx, n - 1);
                    assert(false);
                }
            }
            assert(i as int <= isize::MAX) by {
                assert(isize::MAX as int * 2 + 1 == usize::MAX as int);
                assert(big + m <= m * (big + m)) by (nonlinear_arith) requires m >= 1, big >= 0;
            }
        }
        proof {
            crate::generated::lemma_count_le(in_gen_pred(g), i as int);
        }
        if hit {
            count_set = count_set + 1;
            runlength = runlength + 1;
            window.set(windowindex, i as isize);
        } else {
            runlength = 0;
        }
        proof {
            let wi = windowindex as int;
            assert forall|p: int| 0 <= p < wi + 1 implies #[trigger] window@[p] as int == (if in_gen(g, base + p) { base + p } else { -1 }) by {}
            assert(count_upto(in_gen_pred(g), i + 1) == count_set);
        }
        i = i + 1;
        if windowindex == width - 1 {
            let mut q: usize = 0;
            let ghost before = window@;
            while q < mx
                invariant
                    q <= mx,
                    width == 2 * mx,
                    window@.len() == width,
                    before.len() == width,
                    forall|p: int| 0 <= p < q ==> #[trigger] window@[p] == before[p + mx],
                    forall|p: int| q <= p < width ==> #[trigger] window@[p] == before[p],
                decreases mx - q,
            {
                let v = window[q + mx];
                window.set(q, v);
                q = q + 1;
            }
            windowindex = mx;
            proof {
                let nb = base + mx;
                assert(i - windowindex == nb);
                assert forall|p: int| 0 <= p < mx implies #[trigger] window@[p] as int == (if in_gen(g, nb + p) { nb + p } else { -1 }) by {
                    assert(window@[p] == before[p + mx]);
                }
                assert forall|p: int| mx <= p < window@.len() implies (#[trigger] window@[p] as int == -1 || (window@[p] as int == nb + p - mx && in_gen(g, nb + p - mx))) by {
                    assert(window@[p] == before[p]);
                }
            }
        } else {
            windowindex = windowindex + 1;
        }
    }
    proof {
        assert(runlength == m);
        lemma_scan_end(g, m as int, mx as int, big, i as int, aperyset@, max_apery as int, genset@);
        lemma_count_all(in_gen_pred(g), i - m, m as int);
        assert forall|x: int| i - m <= x < i - m + m implies #[trigger] in_gen_pred(g)(x) by {}
    }
    let f = max_apery - m;
    let sigma = count_set - m;
    proof {
        let mi = m as int;
        assert(aperyset@.len() == mi);
        assert(forall|r: int| 0 <= r < mi ==> #[trigger] aperyset@[r] <= f + mi);
        assert(mi == 1 ==> f == 0);
        assert(mi >= 2 ==> exists|r: int| 0 <= r < mi && #[trigger] aperyset@[r] == f + mi);
        assert(4 * (mi * (f + mi)) <= usize::MAX);
        assert(strictly_increasing(genset@));
        assert(forall|k: int| 0 <= k < genset@.len() ==> is_atom(g, #[trigger] genset@[k] as int) && genset@[k] > mi);
        assert(sigma == count_upto(in_gen_pred(g), f + 1));
        assert(forall|r: int| 0 <= r < mi ==> apery_min(g, mi, #[trigger] aperyset@[r] as int, r));
        assert(forall|x: int| #[trigger] is_atom(g, x) && x != mi ==> seq_has(genset@, x));
        assert(sum_apery == seq_sum(aperyset@));
    }
    let res = Scan { apery: aperyset, atoms: genset, f, sigma, sum: sum_apery };
    proof {
        let mi = g[0] as int;
        let ap = res.apery@;
        assert(ap.len() == mi);
        assert(forall|r: int| 0 <= r < mi ==> apery_min(g, mi, #[trigger] ap[r] as int, r));
        assert(forall|r: int| 0 <= r < mi ==> #[trigger] ap[r] <= res.f + mi);
        assert(mi == 1 ==> res.f == 0);
        assert(mi >= 2 ==> exists|r: int| 0 <= r < mi && #[trigger] ap[r] == res.f + mi);
        assert(4 * (mi * (res.f + mi)) <= usize::MAX);
        assert(strictly_increasing(res.atoms@));
        assert(forall|k: int| 0 <= k < res.atoms@.len() ==> is_atom(g, #[trigger] res.atoms@[k] as int) && res.atoms@[k] > mi);
        assert(forall|x: int| #[trigger] is_atom(g, x) && x != mi ==> seq_has(res.atoms@, x));
        assert(res.sigma == count_upto(in_gen_pred(g), res.f + 1));
        assert(res.sum == seq_sum(ap));
    }
    assert(res.scan_ok(gens@));
    res
}

/// Some number in `lo..lo + m` leaves residue `r`.
proof fn lemma_class_rep(lo: int, m: int, r: int) -> (x: int)
    requires
        m >= 1,
        0 <= r < m,
    ensures
        lo <= x < lo + m,
        x % m == r,
{
    let q = lo / m;
    let t = lo % m;
    assert(lo == q * m + t && 0 <= t < m) by (nonlinear_arith) requires m >= 1, q == lo / m, t == lo % m;
    let x = if r >= t { q * m + r } else { (q + 1) * m + r };
    assert((q + 1) * m == q * m + m) by (nonlinear_arith);
    if r >= t {
        vstd::arithmetic::div_mod::lemma_fundamental_div_mod_converse_mod(x, m, q, r);
    } else {
        vstd::arithmetic::div_mod::lemma_fundamental_div_mod_converse_mod(x, m, q + 1, r);
    }
    x
}

/// The least element of a residue class is unique.
proof fn lemma_apery_unique(g: Seq<usize>, m: int, w1: int, w2: int, r: int)
    requires
        apery_min(g, m, w1, r),
        apery_min(g, m, w2, r),
    ensures
        w1 == w2,
{
    assert(in_gen(g, w1) && w1 % m == r);
    assert(in_gen(g, w2) && w2 % m == r);
}

/// No generator `k` has `i − k` an element, so `i` is not an element.
proof fn lemma_no_decomposition(g: Seq<usize>, m: int, i: int)
    requires
        g.len() >= 1,
        g[0] == m,
        forall|k: int| 1 <= k < g.len() ==> !in_gen(g, i - #[trigger] g[k]),
        !in_gen(g, i - m),
        i > 0,
    ensures
        !in_gen(g, i),
{
    if in_gen(g, i) {
        lemma_in_gen_unfold(g, i);
        let k = choose|k: int| 0 <= k < g.len() && 0 < g[k] <= i && #[trigger] in_gen(g, i - g[k]);
        if k == 0 {
            assert(false);
        } else {
            assert(!in_gen(g, i - g[k]));
        }
    }
}

/// A generator `g[j] = i` for which neither `i − m` nor `i − g[k]`, `0 < k < j`,
/// is an element, is an atom.
proof fn lemma_pushed_is_atom(g: Seq<usize>, m: int, i: int, j: int)
    requires
        sorted(g),
        g.len() >= 1,
        g[0] == m,
        m >= 1,
        1 <= j < g.len(),
        g[j] == i,
        forall|k: int| 1 <= k < j ==> !in_gen(g, i - #[trigger] g[k]),
        !in_gen(g, i - m),
        in_gen(g, i),
    ensures
        is_atom(g, i),
{
    assert forall|a: int| 0 < a < i implies !(#[trigger] in_gen(g, a) && in_gen(g, i - a)) by {
        if in_gen(g, a) && in_gen(g, i - a) {
            lemma_in_gen_unfold(g, a);
            let k = choose|k: int| 0 <= k < g.len() && 0 < g[k] <= a && #[trigger] in_gen(g, a - g[k]);
            lemma_closed_add(g, a - g[k], i - a);
            assert(in_gen(g, i - g[k]));
            if k >= j {
                assert(g[k] >= g[j]);
            }
            if k == 0 {
                assert(false);
            } else {
                assert(1 <= k < j);
                assert(!in_gen(g, i - g[k]));
            }
        }
    }
}

/// What the scan knows when it stops: the Apéry set is complete, the largest
/// Apéry element is the number just below `i`, and every atom other than `m`
/// lies below `i`.
proof fn lemma_scan_end(g: Seq<usize>, m: int, mx: int, big: int, i: int, ap: Seq<usize>, max_apery: int, atoms: Seq<usize>)
    requires
        g.len() >= 1,
        g[0] == m,
        1 <= m <= mx,
        forall|k: int| 0 <= k < g.len() ==> m <= #[trigger] g[k] <= mx,
        i >= 2 * m,
        forall|x: int| i - m <= x < i ==> #[trigger] in_gen(g, x),
        i - m == m || !in_gen(g, i - m - 1),
        ap.len() == m,
        ap[0] == 0,
        forall|r: int| 1 <= r < m ==> apery_progress(g, m, #[trigger] ap[r] as int, r, i),
        m <= max_apery,
        forall|r: int| 0 <= r < m ==> #[trigger] ap[r] <= max_apery,
        max_apery == m || exists|r: int| 0 <= r < m && #[trigger] ap[r] == max_apery,
        max_apery == m || max_apery <= big,
        big >= 0,
        4 * (m * (big + m)) <= usize::MAX,
        forall|x: int| #[trigger] is_atom(g, x) && m < x < i ==> seq_has(atoms, x),
    ensures
        forall|r: int| 0 <= r < m ==> apery_min(g, m, #[trigger] ap[r] as int, r),
        m == 1 ==> max_apery == m,
        m >= 2 ==> max_apery == i - 1 && exists|r: int| 0 <= r < m && #[trigger] ap[r] == max_apery,
        i - m == max_apery - m + 1,
        4 * (m * max_apery) <= usize::MAX,
        forall|x: int| #[trigger] is_atom(g, x) && x != m ==> seq_has(atoms, x),
{
    assert forall|r: int| 0 <= r < m implies apery_min(g, m, #[trigger] ap[r] as int, r) by {
        if r == 0 {
            assert forall|x: int| #[trigger] in_gen(g, x) && x % m == 0 implies x >= 0 by {}
            assert(0int % m == 0);
        } else {
            assert(apery_progress(g, m, ap[r] as int, r, i));
            if ap[r] == 0 {
                let x = lemma_class_rep(i - m, m, r);
                assert(in_gen(g, x));
                assert(false);
            }
        }
    }
    // every number from `i − m` on is an element
    assert forall|y: int| y >= i - m implies #[trigger] in_gen(g, y) by {
        let r = y % m;
        assert(0 <= r < m) by (nonlinear_arith) requires m >= 1, r == y % m;
        let x = lemma_class_rep(i - m, m, r);
        assert(in_gen(g, x));
        if x < i - m || x >= i {
            assert(false);
        }
        if y >= x {
            lemma_same_class_above(g, m, x, y);
        }
    }
    if m == 1 {
        if i - m != m {
            lemma_multiple_in(g, m, i - m - 1);
        }
    }
    if m >= 2 {
        if i - m == m {
            if in_gen(g, m - 1) {
                lemma_positive_ge(g, m, m - 1);
            }
        }
        let top = i - 1;
        let r = top % m;
        assert(0 <= r < m) by (nonlinear_arith) requires m >= 1, r == top % m;
        assert(apery_min(g, m, ap[r] as int, r));
        assert(apery_min(g, m, top, r)) by {
            assert(in_gen(g, top));
            assert forall|x: int| #[trigger] in_gen(g, x) && x % m == r implies x >= top by {
                if x < top {
                    // x ≤ top − m = i − m − 1 and in the same class
                    assert(x <= top - m) by {
                        if x > top - m {
                            let d = top - x;
                            assert(0 < d < m);
                            assert(top % m == x % m);
                            vstd::arithmetic::div_mod::lemma_sub_mod_noop(top, x, m);
                            vstd::arithmetic::div_mod::lemma_small_mod(d as nat, m as nat);
                        }
                    }
                    assert((i - m - 1) % m == r) by {
                        vstd::arithmetic::div_mod::lemma_mod_sub_multiples_vanish(top, m);
                    }
                    lemma_same_class_above(g, m, x, i - m - 1);
                }
            }
        }
        lemma_apery_unique(g, m, ap[r] as int, top, r);
        assert forall|rr: int| 0 <= rr < m implies #[trigger] ap[rr] < i by {
            if rr > 0 {
                assert(apery_progress(g, m, ap[rr] as int, rr, i));
            }
        }
        if max_apery == m {
            assert(ap[r] <= max_apery);
        }
        assert(max_apery == top);
    }
    assert forall|x: int| #[trigger] is_atom(g, x) && x != m implies seq_has(atoms, x) by {
        assert(x > 0);
        if x < m {
            lemma_positive_ge(g, m, x);
        }
        if x >= i {
            assert(in_gen(g, x - m));
            lemma_gen_in(g, 0);
            assert(in_gen(g, m) && in_gen(g, x - m) && 0 < m < x);
        }
    }
    assert(m * max_apery <= m * (big + m)) by (nonlinear_arith)
        requires max_apery == m || max_apery <= big, big >= 0, m >= 1, max_apery >= m;
}

/// Below the first generator only 0 is an element.
proof fn lemma_count_small(g: Seq<usize>, m: int, k: int)
    requires
        g.len() >= 1,
        forall|i: int| 0 <= i < g.len() ==> #[trigger] g[i] >= m,
        1 <= k <= m,
    ensures
        count_upto(in_gen_pred(g), k) == 1,
    decreases k,
{
    if k > 1 {
        lemma_count_small(g, m, k - 1);
        if in_gen(g, k - 1) {
            lemma_positive_ge(g, m, k - 1);
        }
    } else {
        assert(count_upto(in_gen_pred(g), 0) == 0);
        assert(in_gen_pred(g)(0));
    }
}

} // verus!
