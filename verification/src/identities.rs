//! Identities that hold for every well-formed [`Semigroup`]: the Frobenius
//! number is the largest gap, Kunz coefficients are exact quotients, the
//! genus counts the gaps (Selmer's formula), reflected gaps and elements
//! below `f` balance, and every Apéry element plus its anti-diagonal Kunz
//! sum equals `f + m + r`.
use vstd::prelude::*;
use crate::generated::{count_upto, in_gen, in_gen_pred};
use crate::inspect::{anti_diag_sum, kunz_spec, main_diag_sum, r_i_spec};
use crate::semigroup::{apery_min, large_gap_pred, pf_pred, reflected_pred, small_gen_pred, Semigroup};

verus! {

/// The Frobenius number is the largest gap: for `m ≥ 2` it is not an
/// element, and every larger number is.
pub proof fn lemma_frobenius(s: Semigroup)
    requires
        s.wf(),
    ensures
        s.m >= 2 ==> !s.contains(s.f as int),
        forall|x: int| x > s.f ==> #[trigger] s.contains(x),
{
    assert forall|x: int| x > s.f implies #[trigger] s.contains(x) by {
        crate::manipulators::lemma_above_frobenius(s, x);
    }
    if s.m >= 2 {
        let m = s.m as int;
        let f = s.f as int;
        let r = choose|r: int| 0 <= r < m && #[trigger] s.apery_set@[r] == f + m;
        assert(apery_min(s.gen_set@, m, f + m, r));
        assert((f + m) % m == f % m) by {
            vstd::arithmetic::div_mod::lemma_mod_add_multiples_vanish(f, m);
        }
        if s.contains(f) {
            assert(f >= f + m);
        }
    }
}

/// `w_0 = 0`: the least element of the residue class of 0 is 0.
pub proof fn lemma_apery_zero(s: Semigroup)
    requires
        s.wf(),
    ensures
        s.apery_set@[0] == 0,
{
    assert(apery_min(s.gen_set@, s.m as int, s.apery_set@[0] as int, 0));
    assert(in_gen(s.gen_set@, 0));
    assert(0int % (s.m as int) == 0);
}

/// Kunz coefficients are exact: `w_i + w_j ≥ w_{i+j}` (indices modulo `m`),
/// the difference is a multiple of `m`, and `m · c(i, j)` equals it.
pub proof fn lemma_kunz_exact(s: Semigroup, i: int, j: int)
    requires
        s.wf(),
    ensures
        ({
            let m = s.m as int;
            let a = s.apery_set@[i % m] as int;
            let b = s.apery_set@[j % m] as int;
            let c = s.apery_set@[(i + j) % m] as int;
            &&& a + b >= c
            &&& (a + b - c) % m == 0
            &&& m * kunz_spec(s.apery_set@, m, i, j) == a + b - c
        }),
{
    let m = s.m as int;
    let gens = s.gen_set@;
    let ri = i % m;
    let rj = j % m;
    let rk = (i + j) % m;
    assert(0 <= ri < m && 0 <= rj < m && 0 <= rk < m) by (nonlinear_arith)
        requires m >= 1, ri == i % m, rj == j % m, rk == (i + j) % m;
    let a = s.apery_set@[ri] as int;
    let b = s.apery_set@[rj] as int;
    let c = s.apery_set@[rk] as int;
    assert(apery_min(gens, m, a, ri));
    assert(apery_min(gens, m, b, rj));
    assert(apery_min(gens, m, c, rk));
    crate::generated::lemma_closed_add(gens, a, b);
    assert((a + b) % m == rk) by {
        vstd::arithmetic::div_mod::lemma_add_mod_noop(a, b, m);
        vstd::arithmetic::div_mod::lemma_add_mod_noop(i, j, m);
    }
    assert(a + b >= c);
    assert((a + b - c) % m == 0) by {
        vstd::arithmetic::div_mod::lemma_sub_mod_noop(a + b, c, m);
        assert(0int % m == 0);
    }
    let d = a + b - c;
    assert(m * (d / m) == d) by (nonlinear_arith) requires d % m == 0, m >= 1;
}

/// The Kunz matrix is symmetric, and its row and column of index 0 vanish.
pub proof fn lemma_kunz_symmetric(s: Semigroup, i: int, j: int)
    requires
        s.wf(),
    ensures
        kunz_spec(s.apery_set@, s.m as int, i, j) == kunz_spec(s.apery_set@, s.m as int, j, i),
        kunz_spec(s.apery_set@, s.m as int, 0, j) == 0,
{
    let m = s.m as int;
    lemma_apery_zero(s);
    assert(0int % m == 0);
    assert((0 + j) % m == j % m);
    assert(0int / m == 0);
}


/// Gaps, as a predicate on the integers.
pub open spec fn gap_pred(s: Semigroup) -> spec_fn(int) -> bool {
    |x: int| !s.contains(x)
}

/// The number of gaps of residue class `i`: `(w_i − i) / m`.
pub open spec fn class_gaps(apery: Seq<usize>, m: int, i: int) -> int {
    (apery[i] - i) / m
}

/// `Σ_{i<k} min(q, (w_i − i)/m)`: the gaps below `qm` in the first `k` classes.
pub open spec fn class_sum(apery: Seq<usize>, m: int, q: int, k: int) -> int
    decreases k,
{
    if k <= 0 {
        0
    } else {
        let d = class_gaps(apery, m, k - 1);
        class_sum(apery, m, q, k - 1) + if q < d { q } else { d }
    }
}

/// `Σ_{i<k} [qm + i < w_i]`: the gaps among `qm, …, qm + k − 1`.
pub open spec fn block_sum(apery: Seq<usize>, m: int, q: int, k: int) -> int
    decreases k,
{
    if k <= 0 {
        0
    } else {
        block_sum(apery, m, q, k - 1) + if q * m + (k - 1) < apery[k - 1] { 1int } else { 0int }
    }
}

/// `w_i = i + m · (w_i − i)/m`.
proof fn lemma_class_gaps(s: Semigroup, i: int)
    requires
        s.wf(),
        0 <= i < s.m,
    ensures
        s.apery_set@[i] == i + s.m * class_gaps(s.apery_set@, s.m as int, i),
        class_gaps(s.apery_set@, s.m as int, i) >= 0,
{
    let m = s.m as int;
    let w = s.apery_set@[i] as int;
    assert(apery_min(s.gen_set@, m, w, i));
    assert(w == m * (w / m) + w % m) by (nonlinear_arith) requires m >= 1;
    assert(w - i == m * (w / m)) by (nonlinear_arith) requires w == m * (w / m) + w % m, w % m == i;
    assert((w - i) / m == w / m) by (nonlinear_arith) requires w - i == m * (w / m), m >= 1;
    assert(w / m >= 0) by (nonlinear_arith) requires w >= 0, m >= 1;
}

/// Counting the gaps of one block `qm, …, qm + k − 1`.
proof fn lemma_block(s: Semigroup, q: int, k: int)
    requires
        s.wf(),
        q >= 0,
        0 <= k <= s.m,
    ensures
        count_upto(gap_pred(s), q * s.m + k) == count_upto(gap_pred(s), q * s.m) + block_sum(s.apery_set@, s.m as int, q, k),
    decreases k,
{
    if k > 0 {
        lemma_block(s, q, k - 1);
        let m = s.m as int;
        let x = q * m + (k - 1);
        assert(x >= 0) by (nonlinear_arith) requires x == q * m + (k - 1), q >= 0, m >= 1, k >= 1;
        assert(x % m == k - 1) by {
            vstd::arithmetic::div_mod::lemma_fundamental_div_mod_converse(x, m, q, k - 1);
        }
        crate::semigroup::lemma_member(s.gen_set@, m, s.f as int, s.apery_set@, x);
    }
}

/// One more block adds its gaps to the class sums.
proof fn lemma_class_step(s: Semigroup, q: int, k: int)
    requires
        s.wf(),
        q >= 0,
        0 <= k <= s.m,
    ensures
        class_sum(s.apery_set@, s.m as int, q + 1, k) == class_sum(s.apery_set@, s.m as int, q, k) + block_sum(s.apery_set@, s.m as int, q, k),
    decreases k,
{
    if k > 0 {
        lemma_class_step(s, q, k - 1);
        let m = s.m as int;
        let i = k - 1;
        let d = class_gaps(s.apery_set@, m, i);
        lemma_class_gaps(s, i);
        assert((q * m + i < s.apery_set@[i]) == (q < d)) by (nonlinear_arith)
            requires s.apery_set@[i] == i + m * d, m >= 1;
    }
}

/// The gaps below `qm` are counted class by class.
proof fn lemma_gaps_below_blocks(s: Semigroup, q: int)
    requires
        s.wf(),
        q >= 0,
    ensures
        count_upto(gap_pred(s), q * s.m) == class_sum(s.apery_set@, s.m as int, q, s.m as int),
    decreases q,
{
    let m = s.m as int;
    if q == 0 {
        assert(0 * m == 0);
        lemma_class_sum_zero(s, m);
    } else {
        lemma_gaps_below_blocks(s, q - 1);
        lemma_block(s, q - 1, m);
        lemma_class_step(s, q - 1, m);
        assert((q - 1) * m + m == q * m) by (nonlinear_arith);
    }
}

/// With `q = 0` no class contributes.
proof fn lemma_class_sum_zero(s: Semigroup, k: int)
    requires
        s.wf(),
        0 <= k <= s.m,
    ensures
        class_sum(s.apery_set@, s.m as int, 0, k) == 0,
    decreases k,
{
    if k > 0 {
        lemma_class_sum_zero(s, k - 1);
        lemma_class_gaps(s, k - 1);
    }
}

/// With `q` at least every class's gap count, the class sums are the full counts.
proof fn lemma_class_sum_full(s: Semigroup, q: int, k: int)
    requires
        s.wf(),
        0 <= k <= s.m,
        forall|i: int| 0 <= i < s.m ==> class_gaps(s.apery_set@, s.m as int, i) <= q,
    ensures
        class_sum(s.apery_set@, s.m as int, q, k) == gap_total(s.apery_set@, s.m as int, k),
    decreases k,
{
    if k > 0 {
        lemma_class_sum_full(s, q, k - 1);
    }
}

/// `Σ_{i<k} (w_i − i)/m`.
pub open spec fn gap_total(apery: Seq<usize>, m: int, k: int) -> int
    decreases k,
{
    if k <= 0 {
        0
    } else {
        gap_total(apery, m, k - 1) + class_gaps(apery, m, k - 1)
    }
}

/// `m · Σ_{i<k} (w_i − i)/m = Σ_{i<k} w_i − k(k − 1)/2`.
proof fn lemma_gap_total(s: Semigroup, k: int)
    requires
        s.wf(),
        0 <= k <= s.m,
    ensures
        s.m * gap_total(s.apery_set@, s.m as int, k) == crate::arith::seq_sum(s.apery_set@.subrange(0, k)) - k * (k - 1) / 2,
    decreases k,
{
    if k > 0 {
        lemma_gap_total(s, k - 1);
        lemma_class_gaps(s, k - 1);
        let m = s.m as int;
        let sub = s.apery_set@.subrange(0, k);
        assert(sub.drop_last() =~= s.apery_set@.subrange(0, k - 1));
        assert(crate::arith::seq_sum(sub) == crate::arith::seq_sum(sub.drop_last()) + sub.last());
        assert(sub.last() == s.apery_set@[k - 1]);
        let g = gap_total(s.apery_set@, m, k - 1);
        let d = class_gaps(s.apery_set@, m, k - 1);
        assert(m * (g + d) == m * g + m * d) by (nonlinear_arith);
        assert(k * (k - 1) / 2 == (k - 1) * (k - 2) / 2 + (k - 1)) by (nonlinear_arith) requires k >= 1;
        assert(gap_total(s.apery_set@, m, k) == g + d);
        assert(m * d == s.apery_set@[k - 1] - (k - 1));
    } else {
        assert(s.apery_set@.subrange(0, k).len() == 0);
        assert(s.m * 0 == 0);
    }
}

/// Selmer's formula: the genus `g = (Σ w_i − m(m − 1)/2) / m` is the number
/// of gaps, and `σ`, the number of elements in `0..=f`, is `f + 1 − g`.
pub proof fn lemma_genus_counts_gaps(s: Semigroup)
    requires
        s.wf(),
    ensures
        s.g == count_upto(gap_pred(s), s.f + 1),
        s.sigma == s.f + 1 - s.g,
{
    let m = s.m as int;
    let f = s.f as int;
    let q = f / m + 1;
    assert(q * m >= f + 1) by (nonlinear_arith) requires q == f / m + 1, m >= 1, f >= 0;
    assert forall|i: int| 0 <= i < m implies class_gaps(s.apery_set@, m, i) <= q by {
        lemma_class_gaps(s, i);
        assert(s.apery_set@[i] <= f + m);
        let d = class_gaps(s.apery_set@, m, i);
        assert(d <= q) by (nonlinear_arith) requires s.apery_set@[i] == i + m * d, s.apery_set@[i] <= f + m, i >= 0, q == f / m + 1, m >= 1;
    }
    lemma_gaps_below_blocks(s, q);
    lemma_class_sum_full(s, q, m);
    lemma_gap_total(s, m);
    assert(s.apery_set@.subrange(0, m) =~= s.apery_set@);
    let total = gap_total(s.apery_set@, m, m);
    let w = crate::arith::seq_sum(s.apery_set@);
    assert(total == (w - m * (m - 1) / 2) / m) by (nonlinear_arith)
        requires m * total == w - m * (m - 1) / 2, m >= 1;
    lemma_frobenius(s);
    assert forall|x: int| f + 1 <= x < f + 1 + (q * m - (f + 1)) implies !#[trigger] gap_pred(s)(x) by {
        assert(s.contains(x));
    }
    crate::generated::lemma_count_none(gap_pred(s), f + 1, q * m - (f + 1));
    lemma_count_split(s, f + 1);
}

/// Every number in `0..n` is an element or a gap.
proof fn lemma_count_split(s: Semigroup, n: int)
    requires
        n >= 0,
    ensures
        count_upto(gap_pred(s), n) + count_upto(crate::generated::in_gen_pred(s.gen_set@), n) == n,
    decreases n,
{
    if n > 0 {
        lemma_count_split(s, n - 1);
    }
}

/// Reflection through `f`: for `m ≥ 2` every `x` in `0..=f` is an element,
/// or has `f − x` an element, or is a reflected gap, and exactly one of
/// these holds. Hence `r + 2σ = f + 1`, and with Selmer's formula
/// `σ + r = g` and `f + r + 1 = 2g`.
pub proof fn lemma_reflection(s: Semigroup)
    requires
        s.wf(),
        s.m >= 2,
    ensures
        s.r + 2 * s.sigma == s.f + 1,
        s.sigma + s.r == s.g,
        s.f + s.r + 1 == 2 * s.g,
{
    let f = s.f as int;
    let gens = s.gen_set@;
    let a = in_gen_pred(gens);
    let b = |x: int| in_gen(gens, f - x);
    let c = |x: int| !in_gen(gens, x) && !in_gen(gens, f - x);
    lemma_frobenius(s);
    assert forall|x: int| 0 <= x < f + 1 implies {
        ||| (#[trigger] a(x) && !b(x) && !c(x))
        ||| (!a(x) && b(x) && !c(x))
        ||| (!a(x) && !b(x) && c(x))
    } by {
        if in_gen(gens, x) && in_gen(gens, f - x) {
            crate::generated::lemma_closed_add(gens, x, f - x);
        }
    }
    crate::generated::lemma_count_three(a, b, c, f + 1);
    crate::generated::lemma_count_reverse(a, f + 1);
    assert((|x: int| a(f + 1 - 1 - x)) =~= b);
    lemma_apery_zero(s);
    assert(in_gen(gens, 0));
    assert(!c(f));
    assert forall|x: int| 0 <= x < f implies #[trigger] c(x) == reflected_pred(gens, f)(x) by {}
    crate::generated::lemma_count_ext(c, reflected_pred(gens, f), f);
    lemma_genus_counts_gaps(s);
    lemma_count_split(s, f + 1);
}

/// The largest Apéry element lies in the class of `f`: for `m ≥ 2`,
/// `w_μ = f + m`, and every Apéry element is at most `w_μ`.
pub proof fn lemma_apery_max(s: Semigroup)
    requires
        s.wf(),
        s.m >= 2,
    ensures
        s.mu < s.m,
        s.apery_set@[s.mu as int] == s.f + s.m,
        forall|i: int| 0 <= i < s.m ==> #[trigger] s.apery_set@[i] <= s.apery_set@[s.mu as int],
{
    let m = s.m as int;
    let f = s.f as int;
    let r = choose|r: int| 0 <= r < m && #[trigger] s.apery_set@[r] == f + m;
    assert(apery_min(s.gen_set@, m, f + m, r));
    assert((f + m) % m == f % m) by {
        vstd::arithmetic::div_mod::lemma_mod_add_multiples_vanish(f, m);
    }
    assert(0 <= s.mu < m) by (nonlinear_arith) requires s.mu == f % m, m >= 1;
}

/// `Σ_{i<n} w_i` for the first `n` entries.
pub open spec fn prefix_sum(w: Seq<usize>, n: int) -> int {
    crate::arith::seq_sum(w.subrange(0, n))
}

/// Extending a prefix by one entry.
proof fn lemma_prefix_step(w: Seq<usize>, n: int)
    requires
        0 <= n < w.len(),
    ensures
        prefix_sum(w, n + 1) == prefix_sum(w, n) + w[n],
{
    let sub = w.subrange(0, n + 1);
    assert(sub.drop_last() =~= w.subrange(0, n));
}

/// `Σ_{j<k} w_{(i + m − j) mod m}`: the second summands along an anti-diagonal.
pub open spec fn rot_sum(w: Seq<usize>, m: int, i: int, k: int) -> int
    decreases k,
{
    if k <= 0 {
        0
    } else {
        rot_sum(w, m, i, k - 1) + w[(i + m - (k - 1)) % m]
    }
}

/// The indices `(i + m − j) mod m`, `j < k`, run down from `i` to 0 and then
/// down from `m − 1`, so the partial sums are differences of prefix sums.
proof fn lemma_rot_sum(w: Seq<usize>, m: int, i: int, k: int)
    requires
        w.len() == m,
        0 <= i < m,
        0 <= k <= m,
    ensures
        rot_sum(w, m, i, k) == if k <= i + 1 {
            prefix_sum(w, i + 1) - prefix_sum(w, i + 1 - k)
        } else {
            prefix_sum(w, i + 1) + prefix_sum(w, m) - prefix_sum(w, i + m - k + 1)
        },
    decreases k,
{
    if k > 0 {
        lemma_rot_sum(w, m, i, k - 1);
        let j = k - 1;
        if j <= i {
            assert((i + m - j) % m == i - j) by {
                vstd::arithmetic::div_mod::lemma_fundamental_div_mod_converse(i + m - j, m, 1, i - j);
            }
            lemma_prefix_step(w, i - j);
        } else {
            assert((i + m - j) % m == i + m - j) by {
                vstd::arithmetic::div_mod::lemma_fundamental_div_mod_converse(i + m - j, m, 0, i + m - j);
            }
            lemma_prefix_step(w, i + m - j);
        }
    } else {
        assert(w.subrange(0, 0).len() == 0);
    }
}

/// `m` times a partial anti-diagonal sum of Kunz coefficients telescopes.
proof fn lemma_anti_diag_scaled(s: Semigroup, i: int, k: int)
    requires
        s.wf(),
        0 <= i < s.m,
        0 <= k <= s.m,
    ensures
        s.m * anti_diag_sum(s.apery_set@, s.m as int, i, k)
            == prefix_sum(s.apery_set@, k) + rot_sum(s.apery_set@, s.m as int, i, k) - k * s.apery_set@[i],
    decreases k,
{
    let m = s.m as int;
    let w = s.apery_set@;
    if k > 0 {
        lemma_anti_diag_scaled(s, i, k - 1);
        let j = k - 1;
        lemma_kunz_exact(s, j, i + m - j);
        assert(j % m == j) by {
            vstd::arithmetic::div_mod::lemma_small_mod(j as nat, m as nat);
        }
        assert((j + (i + m - j)) % m == i) by {
            vstd::arithmetic::div_mod::lemma_fundamental_div_mod_converse(i + m, m, 1, i);
        }
        lemma_prefix_step(w, j);
        let prev = anti_diag_sum(w, m, i, j);
        let c = kunz_spec(w, m, j, i + m - j);
        assert(m * (prev + c) == m * prev + m * c) by (nonlinear_arith);
        assert(k * w[i] == j * w[i] + w[i]) by (nonlinear_arith) requires k == j + 1;
    } else {
        assert(w.subrange(0, 0).len() == 0);
        assert(m * 0 == 0);
    }
}

/// `2 · (k(k − 1)/2) = k(k − 1)`.
pub(crate) proof fn lemma_triangle_even(k: int)
    requires
        k >= 0,
    ensures
        2 * (k * (k - 1) / 2) == k * (k - 1),
    decreases k,
{
    if k > 0 {
        lemma_triangle_even(k - 1);
        let x = k * (k - 1);
        let y = (k - 1) * (k - 1 - 1);
        assert(x == y + 2 * (k - 1)) by (nonlinear_arith) requires x == k * (k - 1), y == (k - 1) * (k - 1 - 1);
        assert(2 * (x / 2) == x) by (nonlinear_arith) requires x == y + 2 * (k - 1), 2 * (y / 2) == y;
    } else {
        assert(k * (k - 1) == 0) by (nonlinear_arith) requires k == 0;
    }
}

/// Each Apéry element plus the sum of the anti-diagonal of the Kunz matrix
/// through its class is `f + m + r`; in the class of `f` the anti-diagonal
/// sum is `r` itself.
pub proof fn lemma_diag(s: Semigroup, i: int)
    requires
        s.wf(),
        s.m >= 2,
        0 <= i < s.m,
    ensures
        anti_diag_sum(s.apery_set@, s.m as int, i, s.m as int) + s.apery_set@[i] == s.f + s.m + s.r,
        anti_diag_sum(s.apery_set@, s.m as int, s.mu as int, s.m as int) == s.r,
{
    lemma_diag_sum(s, i);
    lemma_apery_max(s);
    lemma_diag_sum(s, s.mu as int);
}

/// The anti-diagonal identity for one class.
proof fn lemma_diag_sum(s: Semigroup, i: int)
    requires
        s.wf(),
        s.m >= 2,
        0 <= i < s.m,
    ensures
        anti_diag_sum(s.apery_set@, s.m as int, i, s.m as int) + s.apery_set@[i] == s.f + s.m + s.r,
{
    let m = s.m as int;
    let w = s.apery_set@;
    lemma_anti_diag_scaled(s, i, m);
    lemma_rot_sum(w, m, i, m);
    assert(w.subrange(0, m) =~= w);
    let total = crate::arith::seq_sum(w);
    lemma_gap_total(s, m);
    lemma_genus_counts_gaps(s);
    lemma_gap_total_is_genus(s);
    lemma_triangle_even(m);
    lemma_reflection(s);
    let d = anti_diag_sum(w, m, i, m);
    let g = s.g as int;
    let t = m * (m - 1) / 2;
    assert(m * d == 2 * total - m * w[i]);
    assert(m * g == total - t);
    assert(2 * t == m * (m - 1));
    assert(m * d == m * (2 * g + m - 1 - w[i])) by (nonlinear_arith)
        requires m * d == 2 * total - m * w[i], m * g == total - t, 2 * t == m * (m - 1);
    assert(d == 2 * g + m - 1 - w[i]) by (nonlinear_arith)
        requires m * d == m * (2 * g + m - 1 - w[i]), m >= 1;
}

/// Selmer's formula for the Apéry set: `m·g = Σ w_i − m(m − 1)/2`, that is
/// `Σ w_i = m·g + m(m − 1)/2`.
pub proof fn lemma_gap_total_is_genus(s: Semigroup)
    requires
        s.wf(),
    ensures
        s.m * s.g == crate::arith::seq_sum(s.apery_set@) - s.m * (s.m - 1) / 2,
{
    let m = s.m as int;
    lemma_gap_total(s, m);
    assert(s.apery_set@.subrange(0, m) =~= s.apery_set@);
    let total = gap_total(s.apery_set@, m, m);
    let w = crate::arith::seq_sum(s.apery_set@);
    assert(total == (w - m * (m - 1) / 2) / m) by (nonlinear_arith)
        requires m * total == w - m * (m - 1) / 2, m >= 1;
}

/// Every generator is at least `m`.
proof fn lemma_gens_ge_m(s: Semigroup, k: int)
    requires
        s.wf(),
        0 <= k < s.gen_set@.len(),
    ensures
        s.gen_set@[k] >= s.m,
{
    if k > 0 {
        assert(s.gen_set@[0] < s.gen_set@[k]);
    }
}

/// A gap `x ≤ f` all of whose sums with a generator are elements is
/// pseudo-Frobenius; `f` itself is one when `m ≥ 2`.
proof fn lemma_f_is_pf(s: Semigroup)
    requires
        s.wf(),
        s.m >= 2,
    ensures
        pf_pred(s.gen_set@)(s.f as int),
{
    lemma_frobenius(s);
    assert forall|k: int| 0 <= k < s.gen_set@.len() implies in_gen(s.gen_set@, s.f + #[trigger] s.gen_set@[k]) by {
        lemma_gens_ge_m(s, k);
        assert(s.contains(s.f + s.gen_set@[k]));
    }
}

/// Below `f`, pseudo-Frobenius numbers are reflected gaps: `f − x` cannot
/// be an element, else `f = x + (f − x)` would be one.
proof fn lemma_pf_reflected(s: Semigroup, x: int)
    requires
        s.wf(),
        s.m >= 2,
        0 <= x < s.f,
        pf_pred(s.gen_set@)(x),
    ensures
        reflected_pred(s.gen_set@, s.f as int)(x),
{
    let gens = s.gen_set@;
    let f = s.f as int;
    lemma_frobenius(s);
    if in_gen(gens, f - x) {
        lemma_pf_add(s, x, f - x);
    }
}

/// A pseudo-Frobenius number plus a positive element is an element.
proof fn lemma_pf_add(s: Semigroup, x: int, y: int)
    requires
        s.wf(),
        pf_pred(s.gen_set@)(x),
        in_gen(s.gen_set@, y),
        y > 0,
    ensures
        in_gen(s.gen_set@, x + y),
    decreases y,
{
    let gens = s.gen_set@;
    crate::generated::lemma_in_gen_unfold(gens, y);
    let i = choose|i: int| 0 <= i < gens.len() && 0 < gens[i] <= y && #[trigger] in_gen(gens, y - gens[i]);
    assert(in_gen(gens, x + gens[i]));
    crate::generated::lemma_closed_add(gens, x + gens[i], y - gens[i]);
    assert(x + gens[i] + (y - gens[i]) == x + y);
}

/// Large gaps, those in `(f − m, f)`, are pseudo-Frobenius: adding any
/// generator (at least `m`) passes `f`.
proof fn lemma_large_gap_pf(s: Semigroup, x: int)
    requires
        s.wf(),
        0 <= x < s.f,
        large_gap_pred(s.gen_set@, s.m as int, s.f as int)(x),
    ensures
        pf_pred(s.gen_set@)(x),
{
    lemma_frobenius(s);
    assert forall|k: int| 0 <= k < s.gen_set@.len() implies in_gen(s.gen_set@, x + #[trigger] s.gen_set@[k]) by {
        lemma_gens_ge_m(s, k);
        assert(s.contains(x + s.gen_set@[k]));
    }
}

/// Bounds on the type: pseudo-Frobenius numbers other than `f` are
/// reflected gaps, so `t ≤ r + 1`; large gaps are pseudo-Frobenius numbers
/// other than `f`, so `rl < t` whenever `t > 0`, and `rl = 0` otherwise;
/// for `m ≥ 2` the type is positive.
pub proof fn lemma_type_bounds(s: Semigroup)
    requires
        s.wf(),
    ensures
        s.t <= s.r + 1,
        s.t > 0 ==> s.rl < s.t,
        s.t == 0 ==> s.rl == 0,
        s.m >= 2 ==> s.t >= 1,
        s.es <= s.e,
        forall|k: int| 0 <= k < s.gen_set@.len() ==> #[trigger] s.gen_set@[k] <= s.ae,
{
    let gens = s.gen_set@;
    let m = s.m as int;
    let f = s.f as int;
    let pf = pf_pred(gens);
    crate::generated::lemma_filter_count(pf, f + 1);
    crate::generated::lemma_count_le(small_gen_pred(gens, m, f), gens.len() as int);
    assert forall|k: int| 0 <= k < gens.len() implies #[trigger] gens[k] <= s.ae by {
        if k < gens.len() - 1 {
            assert(gens[k] < gens[gens.len() - 1]);
        }
    }
    if m >= 2 {
        lemma_f_is_pf(s);
        assert forall|x: int| 0 <= x < f && #[trigger] pf(x) implies reflected_pred(gens, f)(x) by {
            lemma_pf_reflected(s, x);
        }
        crate::generated::lemma_count_mono(pf, reflected_pred(gens, f), f);
        assert forall|x: int| 0 <= x < f && #[trigger] large_gap_pred(gens, m, f)(x) implies pf(x) by {
            lemma_large_gap_pf(s, x);
        }
        crate::generated::lemma_count_mono(large_gap_pred(gens, m, f), pf, f);
    } else {
        assert(f == 0);
        lemma_apery_zero(s);
        assert(in_gen(gens, 0));
        assert(!pf(0));
        assert(count_upto(pf, 0) == 0);
        assert(count_upto(pf, 1) == 0);
        assert(count_upto(large_gap_pred(gens, m, f), 0) == 0);
    }
}

/// Starting from a reflected gap and adding generators while the sum stays
/// a gap ends at a pseudo-Frobenius number below `f`.
proof fn lemma_pf_above_reflected(s: Semigroup, x: int)
    requires
        s.wf(),
        s.m >= 2,
        reflected_pred(s.gen_set@, s.f as int)(x),
    ensures
        exists|y: int| x <= y < s.f && #[trigger] pf_pred(s.gen_set@)(y),
    decreases s.f - x,
{
    let gens = s.gen_set@;
    let f = s.f as int;
    if pf_pred(gens)(x) {
        assert(pf_pred(gens)(x));
    } else {
        let k = choose|k: int| 0 <= k < gens.len() && !in_gen(gens, x + #[trigger] gens[k]);
        let y = x + gens[k];
        lemma_gens_ge_m(s, k);
        lemma_frobenius(s);
        crate::generated::lemma_gen_in(gens, k);
        if y >= f {
            if y == f {
                assert(f - x == gens[k]);
            } else {
                assert(s.contains(y));
            }
        }
        if in_gen(gens, f - y) {
            crate::generated::lemma_closed_add(gens, f - y, gens[k] as int);
            assert(f - y + gens[k] == f - x);
        }
        assert(reflected_pred(gens, f)(y));
        lemma_pf_above_reflected(s, y);
    }
}

/// Symmetry: for `m ≥ 2`, `t = 1` exactly when there is no reflected gap,
/// exactly when `f + 1 = 2g`, exactly when `g = σ`, exactly when `f − x`
/// is an element for every gap `x`; and `S` is almost symmetric
/// (`f + t = 2g`) exactly when `t = r + 1`.
pub proof fn lemma_symmetric(s: Semigroup)
    requires
        s.wf(),
        s.m >= 2,
    ensures
        s.is_symmetric <==> s.r == 0,
        s.is_symmetric <==> s.f + 1 == 2 * s.g,
        s.is_symmetric <==> s.g == s.sigma,
        s.is_symmetric <==> forall|x: int| 0 <= x && !#[trigger] s.contains(x) ==> s.contains(s.f - x),
        s.is_almost_symmetric <==> s.t == s.r + 1,
{
    let gens = s.gen_set@;
    let f = s.f as int;
    let pf = pf_pred(gens);
    let refl = reflected_pred(gens, f);
    lemma_reflection(s);
    lemma_type_bounds(s);
    lemma_f_is_pf(s);
    lemma_frobenius(s);
    crate::generated::lemma_filter_count(pf, f + 1);
    if s.r > 0 {
        crate::generated::lemma_count_witness(refl, f);
        let x = choose|x: int| 0 <= x < f && #[trigger] refl(x);
        lemma_pf_above_reflected(s, x);
        let y = choose|y: int| x <= y < f && #[trigger] pf(y);
        crate::generated::lemma_count_pos(pf, f, y);
        assert(!s.contains(x) && !s.contains(f - x));
    } else {
        assert forall|x: int| 0 <= x && !#[trigger] s.contains(x) implies s.contains(f - x) by {
            if x < f && !s.contains(f - x) {
                crate::generated::lemma_count_pos(refl, f, x);
            }
            if x == f {
                lemma_apery_zero(s);
                assert(in_gen(gens, 0));
            }
        }
    }
}

/// When `f + m` (the largest Apéry element) is `2g + 1`, there are `m − 2`
/// reflected gaps; when it is `2g`, there are `m − 1`.
pub proof fn lemma_reflected_from_top(s: Semigroup)
    requires
        s.wf(),
        s.m >= 2,
    ensures
        s.f + s.m == 2 * s.g + 1 ==> s.r == s.m - 2,
        s.f + s.m == 2 * s.g ==> s.r == s.m - 1,
{
    lemma_reflection(s);
}

/// The genus is the sum over the residue classes of `(w_i − i)/m`, the
/// number of gaps in each class; the class of 0 has none.
pub proof fn lemma_genus_class_sum(s: Semigroup)
    requires
        s.wf(),
    ensures
        gap_total(s.apery_set@, s.m as int, s.m as int) == s.g,
        class_gaps(s.apery_set@, s.m as int, 0) == 0,
{
    let m = s.m as int;
    lemma_gap_total(s, m);
    lemma_gap_total_is_genus(s);
    assert(s.apery_set@.subrange(0, m) =~= s.apery_set@);
    let t = gap_total(s.apery_set@, m, m);
    assert(m * t == m * s.g);
    assert(t == s.g) by (nonlinear_arith) requires m * t == m * s.g, m >= 1;
    lemma_apery_zero(s);
    assert(0int / m == 0);
}

/// `r_i = r_j` when `i + j ≡ μ (mod m)`: the reflected gaps of the classes
/// `i` and `μ − i` are counted by the same Kunz coefficient.
pub proof fn lemma_r_i_symmetric(s: Semigroup, i: int)
    requires
        s.wf(),
        s.m >= 2,
        0 < i < s.m,
        (s.mu + s.m - i) % (s.m as int) != 0,
    ensures
        r_i_spec(s.apery_set@, s.m as int, s.mu as int, i)
            == r_i_spec(s.apery_set@, s.m as int, s.mu as int, (s.mu + s.m - i) % (s.m as int)),
{
    let m = s.m as int;
    let mu = s.mu as int;
    lemma_apery_max(s);
    let j = (mu + m - i) % m;
    assert(0 <= j < m) by (nonlinear_arith) requires m >= 1, j == (mu + m - i) % m;
    assert((mu + m - j) % m == i) by {
        assert(j == mu + m - i || j == mu - i) by {
            if mu + m - i >= m {
                vstd::arithmetic::div_mod::lemma_fundamental_div_mod_converse(mu + m - i, m, 1, mu - i);
            } else {
                vstd::arithmetic::div_mod::lemma_fundamental_div_mod_converse(mu + m - i, m, 0, mu + m - i);
            }
        }
        if j == mu + m - i {
            vstd::arithmetic::div_mod::lemma_fundamental_div_mod_converse(mu + m - j, m, 0, i);
        } else {
            vstd::arithmetic::div_mod::lemma_fundamental_div_mod_converse(mu + m - j, m, 1, i);
        }
    }
    assert(i + j == j + i);
}

/// `Σ_{j<k} w_{(i + j) mod m}`.
pub open spec fn fwd_sum(w: Seq<usize>, m: int, i: int, k: int) -> int
    decreases k,
{
    if k <= 0 {
        0
    } else {
        fwd_sum(w, m, i, k - 1) + w[(i + (k - 1)) % m]
    }
}

/// The indices `(i + j) mod m`, `j < k`, run up from `i` to `m − 1` and then
/// from 0, so the partial sums are differences of prefix sums.
proof fn lemma_fwd_sum(w: Seq<usize>, m: int, i: int, k: int)
    requires
        w.len() == m,
        0 <= i < m,
        0 <= k <= m,
    ensures
        fwd_sum(w, m, i, k) == if i + k <= m {
            prefix_sum(w, i + k) - prefix_sum(w, i)
        } else {
            prefix_sum(w, m) - prefix_sum(w, i) + prefix_sum(w, i + k - m)
        },
    decreases k,
{
    if k > 0 {
        lemma_fwd_sum(w, m, i, k - 1);
        let j = k - 1;
        if i + j < m {
            assert((i + j) % m == i + j) by {
                vstd::arithmetic::div_mod::lemma_fundamental_div_mod_converse(i + j, m, 0, i + j);
            }
            lemma_prefix_step(w, i + j);
        } else {
            assert((i + j) % m == i + j - m) by {
                vstd::arithmetic::div_mod::lemma_fundamental_div_mod_converse(i + j, m, 1, i + j - m);
            }
            lemma_prefix_step(w, i + j - m);
        }
    } else {
        assert(w.subrange(0, i).len() == i);
    }
}

/// `Σ_{j<k} c(i, j)`, a partial row sum of the Kunz matrix.
pub open spec fn kunz_row_sum(s: Semigroup, i: int, k: int) -> int
    decreases k,
{
    if k <= 0 {
        0
    } else {
        kunz_row_sum(s, i, k - 1) + kunz_spec(s.apery_set@, s.m as int, i, k - 1)
    }
}

/// `m` times a partial row sum telescopes.
proof fn lemma_kunz_row_scaled(s: Semigroup, i: int, k: int)
    requires
        s.wf(),
        0 <= i < s.m,
        0 <= k <= s.m,
    ensures
        s.m * kunz_row_sum(s, i, k) == k * s.apery_set@[i] + prefix_sum(s.apery_set@, k) - fwd_sum(
            s.apery_set@,
            s.m as int,
            i,
            k,
        ),
    decreases k,
{
    let m = s.m as int;
    if k > 0 {
        lemma_kunz_row_scaled(s, i, k - 1);
        lemma_kunz_exact(s, i, k - 1);
        lemma_prefix_step(s.apery_set@, k - 1);
        assert(i % m == i) by (nonlinear_arith) requires 0 <= i < m;
        assert((k - 1) % m == k - 1) by (nonlinear_arith) requires 0 <= k - 1 < m;
        let r = kunz_row_sum(s, i, k - 1);
        let c = kunz_spec(s.apery_set@, m, i, k - 1);
        assert(m * (r + c) == m * r + m * c) by (nonlinear_arith);
        assert(k * s.apery_set@[i] == (k - 1) * s.apery_set@[i] + s.apery_set@[i]) by (nonlinear_arith);
    } else {
        assert(s.apery_set@.subrange(0, 0).len() == 0);
        assert(m * 0 == 0);
        assert(k * s.apery_set@[i] == 0) by (nonlinear_arith) requires k == 0;
    }
}

/// The rows of the Kunz matrix add up to the Apéry elements:
/// `Σ_j c(i, j) = w_i`.
pub proof fn lemma_kunz_row_sum(s: Semigroup, i: int)
    requires
        s.wf(),
        0 <= i < s.m,
    ensures
        kunz_row_sum(s, i, s.m as int) == s.apery_set@[i],
{
    let m = s.m as int;
    lemma_kunz_row_scaled(s, i, m);
    lemma_fwd_sum(s.apery_set@, m, i, m);
    let r = kunz_row_sum(s, i, m);
    assert(m * r == m * s.apery_set@[i]);
    assert(r == s.apery_set@[i]) by (nonlinear_arith) requires m * r == m * s.apery_set@[i], m >= 1;
}


/// `r_0 + r_1 + … + r_{k−1}`.
pub open spec fn r_i_sum(s: Semigroup, k: int) -> int
    decreases k,
{
    if k <= 0 {
        0
    } else {
        r_i_sum(s, k - 1) + r_i_spec(s.apery_set@, s.m as int, s.mu as int, k - 1)
    }
}

/// The `r_i` add up to `r`: every reflected gap lies in exactly one class.
pub proof fn lemma_r_i_sum(s: Semigroup)
    requires
        s.wf(),
        s.m >= 2,
    ensures
        r_i_sum(s, s.m as int) == s.r,
{
    lemma_r_i_sum_partial(s, s.m as int);
    lemma_diag(s, 0);
}

/// The partial sums of the `r_i` follow the anti-diagonal through the class of `f`.
proof fn lemma_r_i_sum_partial(s: Semigroup, k: int)
    requires
        s.wf(),
        s.m >= 2,
        0 <= k <= s.m,
    ensures
        r_i_sum(s, k) == anti_diag_sum(s.apery_set@, s.m as int, s.mu as int, k),
    decreases k,
{
    if k > 0 {
        lemma_r_i_sum_partial(s, k - 1);
        let m = s.m as int;
        let mu = s.mu as int;
        let j = k - 1;
        let big = mu + m - j;
        if j == 0 {
            lemma_kunz_symmetric(s, 0, big);
        } else {
            assert(big >= 0);
            vstd::arithmetic::div_mod::lemma_mod_twice(big, m);
            vstd::arithmetic::div_mod::lemma_add_mod_noop_right(j, big, m);
            assert((j + big % m) % m == (j + big) % m);
            assert(kunz_spec(s.apery_set@, m, j, big % m) == kunz_spec(s.apery_set@, m, j, big));
        }
    }
}


/// `w_0 + … + w_{k−1}`.
pub open spec fn apery_prefix(s: Semigroup, k: int) -> int
    decreases k,
{
    if k <= 0 { 0 } else { apery_prefix(s, k - 1) + s.apery_set@[k - 1] }
}

/// `Σ_{j<k} w_{2j mod m}`.
pub open spec fn doubled_sum(s: Semigroup, k: int) -> int
    decreases k,
{
    if k <= 0 { 0 } else { doubled_sum(s, k - 1) + s.apery_set@[(2 * (k - 1)) % (s.m as int)] }
}

/// `Σ_{j<k} w_{2j + t}`: the Apéry elements of even (`t = 0`) or odd (`t = 1`) class.
pub open spec fn parity_sum(s: Semigroup, t: int, k: int) -> int
    decreases k,
{
    if k <= 0 { 0 } else { parity_sum(s, t, k - 1) + s.apery_set@[2 * (k - 1) + t] }
}

/// The prefix sums of the Apéry set are those of [`crate::arith::seq_sum`].
proof fn lemma_apery_prefix(s: Semigroup, k: int)
    requires
        0 <= k <= s.apery_set@.len(),
    ensures
        apery_prefix(s, k) == crate::arith::seq_sum(s.apery_set@.subrange(0, k)),
    decreases k,
{
    if k > 0 {
        lemma_apery_prefix(s, k - 1);
        assert(s.apery_set@.subrange(0, k).drop_last() =~= s.apery_set@.subrange(0, k - 1));
    }
}

/// `m` times a partial main-diagonal sum from class 0.
proof fn lemma_main_diag_partial(s: Semigroup, k: int)
    requires
        s.wf(),
        0 <= k <= s.m,
    ensures
        s.m * main_diag_sum(s.apery_set@, s.m as int, 0, k) == 2 * apery_prefix(s, k) - doubled_sum(s, k),
    decreases k,
{
    if k > 0 {
        let m = s.m as int;
        lemma_main_diag_partial(s, k - 1);
        lemma_kunz_exact(s, k - 1, k - 1);
        assert((k - 1) % m == k - 1) by (nonlinear_arith) requires 0 <= k - 1 < m;
        assert(0 + k - 1 == k - 1);
        let c = kunz_spec(s.apery_set@, m, k - 1, k - 1);
        assert(m * main_diag_sum(s.apery_set@, m, 0, k) == m * main_diag_sum(s.apery_set@, m, 0, k - 1) + m * c)
            by (nonlinear_arith)
            requires main_diag_sum(s.apery_set@, m, 0, k) == main_diag_sum(s.apery_set@, m, 0, k - 1) + c;
    }
}

/// The first `2h + 1` Apéry elements split into even and odd classes.
proof fn lemma_prefix_parity(s: Semigroup, h: int)
    requires
        0 <= h,
    ensures
        apery_prefix(s, 2 * h + 1) == parity_sum(s, 0, h + 1) + parity_sum(s, 1, h),
    decreases h,
{
    if h > 0 {
        lemma_prefix_parity(s, h - 1);
        assert(apery_prefix(s, 2 * h + 1) == apery_prefix(s, 2 * h) + s.apery_set@[2 * h]);
        assert(apery_prefix(s, 2 * h) == apery_prefix(s, 2 * h - 1) + s.apery_set@[2 * h - 1]);
        assert(parity_sum(s, 0, h + 1) == parity_sum(s, 0, h) + s.apery_set@[2 * h]);
        assert(parity_sum(s, 1, h) == parity_sum(s, 1, h - 1) + s.apery_set@[2 * (h - 1) + 1]);
    } else {
        assert(apery_prefix(s, 1) == apery_prefix(s, 0) + s.apery_set@[0]);
        assert(parity_sum(s, 0, 1) == parity_sum(s, 0, 0) + s.apery_set@[0]);
    }
}

/// For `m = 2h + 1`, doubling runs through the even classes, then the odd ones.
proof fn lemma_doubled_parity(s: Semigroup, h: int, k: int)
    requires
        s.m == 2 * h + 1,
        0 <= k <= s.m,
    ensures
        k <= h + 1 ==> doubled_sum(s, k) == parity_sum(s, 0, k),
        k > h + 1 ==> doubled_sum(s, k) == parity_sum(s, 0, h + 1) + parity_sum(s, 1, k - h - 1),
    decreases k,
{
    if k > 0 {
        let m = s.m as int;
        lemma_doubled_parity(s, h, k - 1);
        let j = k - 1;
        assert(doubled_sum(s, k) == doubled_sum(s, j) + s.apery_set@[(2 * j) % m]);
        if j <= h {
            assert((2 * j) % m == 2 * j) by (nonlinear_arith) requires 0 <= 2 * j < m;
            assert(parity_sum(s, 0, k) == parity_sum(s, 0, j) + s.apery_set@[2 * j]);
        } else {
            let t = j - h - 1;
            assert(2 * j == 1 * m + (2 * t + 1));
            assert(0 <= 2 * t + 1 < m);
            vstd::arithmetic::div_mod::lemma_fundamental_div_mod_converse(2 * j, m, 1, 2 * t + 1);
            assert((2 * j) % m == 2 * t + 1);
            assert(parity_sum(s, 1, t + 1) == parity_sum(s, 1, t) + s.apery_set@[2 * t + 1]);
            if j == h + 1 {
                assert(parity_sum(s, 1, 0) == 0);
            }
        }
    }
}

/// For odd `m`, the main diagonal of the Kunz matrix through class 0 sums
/// to `g + (m − 1)/2`.
pub proof fn lemma_main_diag_odd(s: Semigroup)
    requires
        s.wf(),
        s.m % 2 == 1,
    ensures
        main_diag_sum(s.apery_set@, s.m as int, 0, s.m as int) == s.g + (s.m - 1) / 2,
{
    let m = s.m as int;
    let h = (m - 1) / 2;
    assert(m == 2 * h + 1);
    lemma_main_diag_partial(s, m);
    lemma_prefix_parity(s, h);
    lemma_doubled_parity(s, h, m);
    lemma_apery_prefix(s, m);
    assert(s.apery_set@.subrange(0, m) =~= s.apery_set@);
    lemma_gap_total_is_genus(s);
    let total = apery_prefix(s, m);
    let d = main_diag_sum(s.apery_set@, m, 0, m);
    assert(m * d == total);
    assert(m * (m - 1) / 2 == m * h) by (nonlinear_arith) requires m == 2 * h + 1;
    assert(m * d == m * (s.g + h)) by (nonlinear_arith) requires m * d == total, m * s.g == total - m * h;
    assert(d == s.g + h) by (nonlinear_arith) requires m * d == m * (s.g + h), m >= 1;
}


/// The numbers `x ≡ i (mod m)` strictly between `a` and `b`.
pub open spec fn class_between(m: int, i: int, a: int, b: int) -> spec_fn(int) -> bool {
    |x: int| x % m == i && a < x && x < b
}

/// Adding one point that the predicate misses adds one to the count.
proof fn lemma_count_point(p: spec_fn(int) -> bool, c: int, n: int)
    requires
        0 <= c < n,
        !p(c),
    ensures
        count_upto(|x: int| p(x) || x == c, n) == count_upto(p, n) + 1,
    decreases n,
{
    let q = |x: int| p(x) || x == c;
    if n - 1 > c {
        lemma_count_point(p, c, n - 1);
        assert(q(n - 1) == p(n - 1));
    } else {
        crate::generated::lemma_count_ext(p, q, c);
        assert(q(c));
    }
}

/// `x = m·(x / m) + i` for `x ≡ i`.
proof fn lemma_split_mod(x: int, m: int)
    requires
        m >= 1,
    ensures
        x == m * (x / m) + x % m,
        0 <= x % m < m,
{
    vstd::arithmetic::div_mod::lemma_fundamental_div_mod(x, m);
}

/// Between `a` and `b`, both `≡ i (mod m)`, lie `(b − a)/m − 1` numbers `≡ i`.
proof fn lemma_count_progression(m: int, i: int, a: int, b: int, n: int)
    requires
        m >= 1,
        0 <= i < m,
        a % m == i,
        b % m == i,
        -m <= a < b <= n,
        0 <= n,
    ensures
        count_upto(class_between(m, i, a, b), n) == (b - a) / m - 1,
    decreases b - a,
{
    lemma_split_mod(a, m);
    lemma_split_mod(b, m);
    let qa = a / m;
    let qb = b / m;
    assert(b - a == m * (qb - qa)) by (nonlinear_arith) requires a == m * qa + i, b == m * qb + i;
    assert(qb - qa >= 1) by (nonlinear_arith) requires b - a == m * (qb - qa), b > a, m >= 1;
    assert((b - a) / m == qb - qa) by {
        vstd::arithmetic::div_mod::lemma_div_multiples_vanish(qb - qa, m);
    }
    let p = class_between(m, i, a, b);
    if qb - qa == 1 {
        assert forall|x: int| 0 <= x < 0 + n implies !#[trigger] p(x) by {
            if p(x) {
                lemma_split_mod(x, m);
                let qx = x / m;
                assert(x % m == i);
                assert(x == m * qx + i);
                assert(b == a + m) by (nonlinear_arith) requires b - a == m * (qb - qa), qb - qa == 1;
                assert(false) by (nonlinear_arith)
                    requires x == m * qx + i, a == m * qa + i, a < x, x < a + m, m >= 1;
            }
        }
        crate::generated::lemma_count_none(p, 0, n);
    } else {
        let c = b - m;
        assert(c == (qb - 1) * m + i) by (nonlinear_arith) requires b == m * qb + i, c == b - m;
        assert(c == m * (qb - 1) + i) by (nonlinear_arith) requires c == (qb - 1) * m + i;
        assert(c % m == i) by {
            vstd::arithmetic::div_mod::lemma_fundamental_div_mod_converse(c, m, qb - 1, i);
        }
        assert(c - a == m * (qb - qa - 1)) by (nonlinear_arith) requires b - a == m * (qb - qa), c == b - m;
        assert(c - a >= m) by (nonlinear_arith) requires c - a == m * (qb - qa - 1), qb - qa >= 2, m >= 1;
        lemma_count_progression(m, i, a, c, n);
        let pc = class_between(m, i, a, c);
        assert forall|x: int| 0 <= x < n implies #[trigger] p(x) == (pc(x) || x == c) by {
            if p(x) && x > c {
                lemma_split_mod(x, m);
                let qx = x / m;
                assert(x % m == i);
                assert(x == m * qx + i);
                assert(false) by (nonlinear_arith)
                    requires x == m * qx + i, c == m * (qb - 1) + i, c < x, x < c + m, m >= 1;
            }
        }
        crate::generated::lemma_count_ext(p, |x: int| pc(x) || x == c, n);
        lemma_count_point(pc, c, n);
        assert((c - a) / m == qb - qa - 1) by {
            vstd::arithmetic::div_mod::lemma_div_multiples_vanish(qb - qa - 1, m);
        }
    }
}


/// The reflected gaps in the class of `i`.
pub open spec fn class_reflected(s: Semigroup, i: int) -> spec_fn(int) -> bool {
    |x: int| x % (s.m as int) == i && reflected_pred(s.gen_set@, s.f as int)(x)
}

/// `r_i` counts the reflected gaps in the class of `i`: the gaps `x < f`
/// with `x ≡ i (mod m)` and `f − x` a gap.
pub proof fn lemma_r_i_count(s: Semigroup, i: int)
    requires
        s.wf(),
        s.m >= 2,
        1 <= i < s.m,
    ensures
        r_i_spec(s.apery_set@, s.m as int, s.mu as int, i) == count_upto(class_reflected(s, i), s.f as int),
{
    let m = s.m as int;
    let f = s.f as int;
    let mu = s.mu as int;
    let gens = s.gen_set@;
    let ap = s.apery_set@;
    lemma_apery_max(s);
    let j = (mu + m - i) % m;
    lemma_split_mod(mu + m - i, m);
    let t = (mu + m - i) / m;
    assert(mu + m - i == m * t + j);
    let wi = ap[i] as int;
    let wj = ap[j] as int;
    assert(apery_min(gens, m, wi, i));
    assert(apery_min(gens, m, wj, j));
    // the class of i + j is that of f
    assert((i + j) % m == mu) by {
        vstd::arithmetic::div_mod::lemma_add_mod_noop_right(i, mu + m - i, m);
        vstd::arithmetic::div_mod::lemma_fundamental_div_mod_converse(mu + m, m, 1, mu);
    }
    assert(i % m == i) by (nonlinear_arith) requires 0 <= i < m;
    assert(j % m == j) by {
        vstd::arithmetic::div_mod::lemma_mod_twice(mu + m - i, m);
    }
    lemma_kunz_exact(s, i, j);
    let k = kunz_spec(ap, m, i, j);
    assert(m * k == wi + wj - (f + m));
    // f − wj and wi lie in the class of i
    lemma_split_mod(f, m);
    lemma_split_mod(wj, m);
    lemma_split_mod(wi, m);
    let qf = f / m;
    let qj = wj / m;
    let qi = wi / m;
    assert(f % m == mu);
    assert(f - wj == m * (qf - qj - 1 + t) + i) by (nonlinear_arith)
        requires f == m * qf + mu, wj == m * qj + j, mu + m - i == m * t + j;
    assert((f - wj) % m == i) by {
        vstd::arithmetic::div_mod::lemma_fundamental_div_mod_converse(f - wj, m, qf - qj - 1 + t, i);
        assert(f - wj == (qf - qj - 1 + t) * m + i) by (nonlinear_arith)
            requires f - wj == m * (qf - qj - 1 + t) + i;
    }
    assert(wi % m == i);
    assert(wj <= f + m);
    assert(wi <= f + m);
    assert(wi + wj - f >= m) by (nonlinear_arith) requires m * k == wi + wj - (f + m), k >= 0, m >= 1;
    let q = class_between(m, i, f - wj, wi);
    lemma_count_progression(m, i, f - wj, wi, f + m);
    assert((wi - (f - wj)) / m == k + 1) by {
        assert(wi - (f - wj) == (k + 1) * m) by (nonlinear_arith) requires m * k == wi + wj - (f + m);
        vstd::arithmetic::div_mod::lemma_div_multiples_vanish(k + 1, m);
        assert((k + 1) * m == m * (k + 1)) by (nonlinear_arith);
    }
    // nothing of the progression lies in [f, f + m)
    assert forall|x: int| f <= x < f + m implies !#[trigger] q(x) by {
        if q(x) {
            if x > f {
                crate::manipulators::lemma_above_frobenius(s, x);
                assert(in_gen(gens, x));
                assert(x % m == i);
                assert(x >= wi);
            } else {
                assert(x == f);
                assert(i == mu);
                assert(j == 0) by {
                    vstd::arithmetic::div_mod::lemma_mod_self_0(m);
                }
                lemma_apery_zero(s);
                assert(wj == 0);
            }
        }
    }
    crate::generated::lemma_count_none(q, f, m);
    // below f the progression is the class's reflected gaps
    let p = class_reflected(s, i);
    assert forall|x: int| 0 <= x < f implies #[trigger] p(x) == q(x) by {
        if x % m == i {
            crate::semigroup::lemma_member(gens, m, f, ap, x);
            lemma_split_mod(x, m);
            let qx = x / m;
            assert(x == m * qx + i);
            let y = f - x;
            assert(y == m * (qf - qx - 1 + t) + j) by (nonlinear_arith)
                requires f == m * qf + mu, x == m * qx + i, mu + m - i == m * t + j, y == f - x;
            assert(y == (qf - qx - 1 + t) * m + j) by (nonlinear_arith)
                requires y == m * (qf - qx - 1 + t) + j;
            assert(0 <= j < m);
            assert(y % m == j) by {
                vstd::arithmetic::div_mod::lemma_fundamental_div_mod_converse(y, m, qf - qx - 1 + t, j);
            }
            crate::semigroup::lemma_member(gens, m, f, ap, y);
        }
    }
    crate::generated::lemma_count_ext(p, q, f);
}


/// The class of `f` holds no reflected gap: `r_μ = 0`, since `f − x` is a
/// multiple of `m` for every `x` in that class.
pub proof fn lemma_r_i_at_mu(s: Semigroup)
    requires
        s.wf(),
    ensures
        r_i_spec(s.apery_set@, s.m as int, s.mu as int, s.mu as int) == 0,
{
    let m = s.m as int;
    let mu = s.mu as int;
    if m >= 2 && mu != 0 {
        assert(0 <= mu < m) by (nonlinear_arith) requires m >= 2, mu == (s.f as int) % m;
        vstd::arithmetic::div_mod::lemma_mod_self_0(m);
        assert((mu + m - mu) % m == 0);
        lemma_apery_zero(s);
        assert(mu % m == mu) by (nonlinear_arith) requires 0 <= mu < m;
        assert(0int % m == 0);
        assert(0int / m == 0);
    }
}

} // verus!
