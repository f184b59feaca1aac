//! The identities that the diagonals view displays side by side, proved
//! for every semigroup: the first column of `U(m)·C_red` lists the Apéry
//! elements `w_1, …, w_{m−1}`; `1ᵀU(m)·c₁ = Σ w_i = mg + m(m − 1)/2`;
//! `zd(m)·c₁ = 2g + m − 1 = f + m + r`; and `D(m)·c₁` lists the
//! anti-diagonal sums of the Kunz matrix.
//!
//! All of them rest on `m·c(k, 1) = w_k + w_1 − w_{k+1}` (indices modulo
//! `m`), which makes the partial sums of `c(k, 1)` telescope.
use vstd::prelude::*;
use crate::arith::seq_sum;
use crate::diagonals::{c1_spec, col_u, d_prod_spec, d_row, lemma_u_dot_is_uc, one_u_spec, sdot, uc_dot, zd_spec};
use crate::identities::{lemma_apery_zero, lemma_diag, lemma_gap_total_is_genus, lemma_kunz_exact, lemma_reflection, lemma_triangle_even};
use crate::inspect::{anti_diag_sum, kunz_spec, lemma_kunz_bound};
use crate::kunz_matrices::{d_entry, lemma_pair_unscaled, pair_entry, pair_k, u_dot, u_entry, zd_entry};
use crate::matrix::DenseMatrix;
use crate::semigroup::Semigroup;

verus! {

/// `c(k, 1)`, the Kunz coefficient in column 1.
pub open spec fn ck(s: Semigroup, k: int) -> int {
    kunz_spec(s.apery_set@, s.m as int, k, 1)
}

/// `T(k) = c(1, 1) + … + c(k, 1)`.
pub open spec fn tsum(s: Semigroup, k: int) -> int
    decreases k,
{
    if k <= 0 {
        0
    } else {
        tsum(s, k - 1) + ck(s, k)
    }
}

/// The telescoping sum: `m·T(k) = (k + 1)·w_1 − w_{k+1}` for `k < m`,
/// where `w_m = w_0 = 0`.
pub proof fn lemma_tsum(s: Semigroup, k: int)
    requires
        s.wf(),
        s.m >= 2,
        0 <= k <= s.m - 1,
    ensures
        s.m * tsum(s, k) == (k + 1) * s.apery_set@[1] - s.apery_set@[(k + 1) % (s.m as int)],
    decreases k,
{
    let m = s.m as int;
    let w1 = s.apery_set@[1] as int;
    if k == 0 {
        assert(1int % m == 1) by (nonlinear_arith) requires m >= 2;
        assert(tsum(s, 0) == 0);
        assert(m * tsum(s, k) == 0) by (nonlinear_arith) requires tsum(s, k) == 0;
        assert((k + 1) * w1 == w1) by (nonlinear_arith) requires k == 0;
    } else {
        lemma_tsum(s, k - 1);
        lemma_kunz_exact(s, k, 1);
        assert(k % m == k) by (nonlinear_arith) requires 0 <= k < m;
        assert(1int % m == 1) by (nonlinear_arith) requires m >= 2;
        assert((k - 1 + 1) % m == k) by (nonlinear_arith) requires 0 <= k < m;
        let t = tsum(s, k - 1);
        let c = ck(s, k);
        assert(m * (t + c) == m * t + m * c) by (nonlinear_arith);
        assert((k - 1 + 1) * w1 == k * w1);
        assert((k + 1) * w1 == k * w1 + w1) by (nonlinear_arith);
        assert(m * t == k * w1 - s.apery_set@[k]);
        assert(m * c == s.apery_set@[k] + w1 - s.apery_set@[(k + 1) % m]);
    }
}

/// The rows of `U(m)` against `c₁`: `Σ_{b<k} U(m)[a][b]·c(b + 1, 1) =
/// (a + 1)·T(k) − m·T(min(k, a))`.
proof fn lemma_uc_partial(s: Semigroup, a: int, k: int)
    requires
        s.wf(),
        s.m >= 2,
        0 <= a,
        0 <= k <= s.m - 1,
    ensures
        uc_dot(s, a, 0, k) == (a + 1) * tsum(s, k) - s.m * tsum(s, if k <= a { k } else { a }),
    decreases k,
{
    if k > 0 {
        lemma_uc_partial(s, a, k - 1);
        let m = s.m as int;
        let t = tsum(s, k - 1);
        let c = ck(s, k);
        assert(kunz_spec(s.apery_set@, m, k, 0int + 1) == c);
        assert(uc_dot(s, a, 0, k) == uc_dot(s, a, 0, k - 1) + u_entry(m, a, k - 1) * c);
        assert(tsum(s, k) == t + c);
        assert((a + 1) * (t + c) == (a + 1) * t + (a + 1) * c) by (nonlinear_arith);
        if k - 1 < a {
            let t0 = tsum(s, k - 1);
            assert(uc_dot(s, a, 0, k - 1) == (a + 1) * t - m * t0);
            assert(m * (t + c) == m * t + m * c) by (nonlinear_arith);
            assert((a + 1 - m) * c == (a + 1) * c - m * c) by (nonlinear_arith);
            assert(u_entry(m, a, k - 1) == a + 1 - m);
        } else {
            let ta = tsum(s, a);
            assert(uc_dot(s, a, 0, k - 1) == (a + 1) * t - m * ta);
            assert(u_entry(m, a, k - 1) == a + 1);
        }
    } else {
        assert(tsum(s, 0) == 0);
        assert((a + 1) * tsum(s, 0) == 0) by (nonlinear_arith) requires tsum(s, 0) == 0;
        assert(s.m * tsum(s, 0) == 0) by (nonlinear_arith) requires tsum(s, 0) == 0;
    }
}

/// The first column of `U(m)·C_red` lists the Apéry elements: its entry in
/// row `a` is `w_{a+1}`.
pub proof fn lemma_uc_first_column(s: Semigroup, a: int)
    requires
        s.wf(),
        s.m >= 2,
        0 <= a < s.m - 1,
    ensures
        uc_dot(s, a, 0, s.m - 1) == s.apery_set@[a + 1],
{
    let m = s.m as int;
    let w1 = s.apery_set@[1] as int;
    lemma_uc_partial(s, a, m - 1);
    lemma_tsum(s, m - 1);
    lemma_tsum(s, a);
    lemma_apery_zero(s);
    assert((m - 1 + 1) % m == 0) by (nonlinear_arith) requires m >= 2;
    assert((a + 1) % m == a + 1) by (nonlinear_arith) requires 0 <= a < m - 1;
    let tm = tsum(s, m - 1);
    let ta = tsum(s, a);
    assert(tm == w1) by (nonlinear_arith) requires m * tm == m * w1, m >= 2;
    assert(uc_dot(s, a, 0, m - 1) == (a + 1) * tm - m * ta);
    assert((a + 1) * tm - m * ta == s.apery_set@[a + 1]) by (nonlinear_arith)
        requires tm == w1, m * ta == (a + 1) * w1 - s.apery_set@[a + 1];
}

/// `Σ_{b<k} b·c(b + 1, 1)`.
pub open spec fn bsum(s: Semigroup, k: int) -> int
    decreases k,
{
    if k <= 0 {
        0
    } else {
        bsum(s, k - 1) + (k - 1) * ck(s, k)
    }
}

/// `w_1 + … + w_k`.
pub open spec fn pw(s: Semigroup, k: int) -> int
    decreases k,
{
    if k <= 0 {
        0
    } else {
        pw(s, k - 1) + s.apery_set@[k]
    }
}

/// The weighted telescoping sum:
/// `m·Σ_{b<k} b·c(b + 1, 1) = w_1·k(k − 1)/2 + (w_1 + … + w_k) − w_1 − (k − 1)·w_{k+1}`.
proof fn lemma_bsum(s: Semigroup, k: int)
    requires
        s.wf(),
        s.m >= 2,
        1 <= k <= s.m - 1,
    ensures
        s.m * bsum(s, k) == s.apery_set@[1] * (k * (k - 1) / 2) + pw(s, k) - s.apery_set@[1] - (k - 1)
            * s.apery_set@[(k + 1) % (s.m as int)],
    decreases k,
{
    let m = s.m as int;
    let w1 = s.apery_set@[1] as int;
    if k == 1 {
        assert(pw(s, 0) == 0);
        assert(bsum(s, 0) == 0);
        assert(bsum(s, 1) == bsum(s, 0) + 0 * ck(s, 1));
        assert(m * bsum(s, k) == 0) by (nonlinear_arith) requires bsum(s, k) == 0;
        assert(pw(s, 1) == w1);
        assert(w1 * (k * (k - 1) / 2) == 0) by (nonlinear_arith) requires k == 1;
        assert((k - 1) * s.apery_set@[(k + 1) % m] == 0) by (nonlinear_arith) requires k == 1;
    } else {
        lemma_bsum(s, k - 1);
        lemma_kunz_exact(s, k, 1);
        assert(k % m == k) by (nonlinear_arith) requires 0 <= k < m;
        assert(1int % m == 1) by (nonlinear_arith) requires m >= 2;
        assert((k - 1 + 1) % m == k) by (nonlinear_arith) requires 0 <= k < m;
        let b = bsum(s, k - 1);
        let c = ck(s, k);
        let wk = s.apery_set@[k] as int;
        let wn = s.apery_set@[(k + 1) % m] as int;
        assert(m * c == wk + w1 - wn);
        assert(m * b == w1 * ((k - 1) * (k - 2) / 2) + pw(s, k - 1) - w1 - (k - 2) * wk);
        assert(pw(s, k) == pw(s, k - 1) + wk);
        assert((k - 1) * (k - 2) / 2 + (k - 1) == k * (k - 1) / 2) by (nonlinear_arith) requires k >= 2;
        assert(m * (b + (k - 1) * c) == m * b + (k - 1) * (m * c)) by (nonlinear_arith);
        assert(m * bsum(s, k) == m * (b + (k - 1) * c));
        assert(m * b + (k - 1) * (wk + w1 - wn) == w1 * (k * (k - 1) / 2) + pw(s, k) - w1 - (k - 1) * wn)
            by (nonlinear_arith)
            requires m * b == w1 * ((k - 1) * (k - 2) / 2) + pw(s, k - 1) - w1 - (k - 2) * wk,
                pw(s, k) == pw(s, k - 1) + wk,
                (k - 1) * (k - 2) / 2 + (k - 1) == k * (k - 1) / 2;
    }
}

/// The Apéry elements other than `w_0 = 0` add up to the whole sum.
proof fn lemma_pw_total(s: Semigroup, k: int)
    requires
        s.wf(),
        0 <= k < s.m,
    ensures
        pw(s, k) == seq_sum(s.apery_set@.subrange(0, k + 1)),
    decreases k,
{
    if k == 0 {
        lemma_apery_zero(s);
        let sub = s.apery_set@.subrange(0, 1);
        assert(sub.drop_last() =~= Seq::<usize>::empty());
        assert(seq_sum(sub) == seq_sum(sub.drop_last()) + sub.last());
    } else {
        lemma_pw_total(s, k - 1);
        let sub = s.apery_set@.subrange(0, k + 1);
        assert(sub.drop_last() =~= s.apery_set@.subrange(0, k));
        assert(seq_sum(sub) == seq_sum(sub.drop_last()) + sub.last());
    }
}

/// `Σ_{a<k} U(m)[a][j]` in closed form: `k(k + 1)/2 − m·max(0, k − 1 − j)`.
proof fn lemma_col_u(m: int, j: int, k: int)
    requires
        m >= 2,
        0 <= j,
        0 <= k,
    ensures
        col_u(m, j, k) == k * (k + 1) / 2 - m * (if k - 1 > j { k - 1 - j } else { 0 }),
    decreases k,
{
    if k > 0 {
        lemma_col_u(m, j, k - 1);
        assert(k * (k + 1) / 2 == (k - 1) * k / 2 + k) by (nonlinear_arith) requires k >= 1;
        assert(col_u(m, j, k) == col_u(m, j, k - 1) + u_entry(m, k - 1, j));
        if k - 1 > j {
            assert(u_entry(m, k - 1, j) == k - m);
            if k - 2 > j {
                assert(m * (k - 1 - j) == m * (k - 2 - j) + m) by (nonlinear_arith);
            } else {
                assert(m * (k - 1 - j) == m) by (nonlinear_arith) requires k - 1 - j == 1;
                assert(m * 0 == 0);
            }
        } else {
            assert(u_entry(m, k - 1, j) == k);
            assert(m * 0 == 0);
        }
    } else {
        assert(m * 0 == 0);
        assert(0int * (0 + 1) / 2 == 0);
    }
}

/// The sizes of a well-formed semigroup are far from the `i64` range.
proof fn lemma_small_sizes(s: Semigroup)
    requires
        s.wf(),
    ensures
        2 * (s.m * s.m) <= i64::MAX,
        2 * (s.f + s.m) <= i64::MAX,
{
    let m = s.m as int;
    let f = s.f as int;
    assert(m * m <= m * (f + m)) by (nonlinear_arith) requires m >= 1, f >= 0;
    assert(f + m <= m * (f + m)) by (nonlinear_arith) requires m >= 1, f >= 0;
    assert(usize::MAX <= u64::MAX);
}

/// The entries of the vectors of the view, read back as integers.
proof fn lemma_entries(s: Semigroup, b: int)
    requires
        s.wf(),
        s.m >= 2,
        0 <= b < s.m - 1,
    ensures
        c1_spec(s)[b] as int == ck(s, b + 1),
        one_u_spec(s.m as int)[b] as int == col_u(s.m as int, b, s.m - 1),
        zd_spec(s.m as int)[b] as int == zd_entry(s.m as int, b),
        0 <= ck(s, b + 1) <= 2 * (s.f + s.m),
{
    let m = s.m as int;
    let f = s.f as int;
    lemma_kunz_bound(s.apery_set@, m, f, b + 1, 1);
    lemma_col_u(m, b, m - 1);
    let x = if m - 2 > b { m - 2 - b } else { 0 };
    assert(0 <= x <= m);
    lemma_small_sizes(s);
    assert(m * x <= m * m) by (nonlinear_arith) requires 0 <= x <= m, m >= 0;
    assert((m - 1) * m / 2 <= m * m) by (nonlinear_arith) requires m >= 2;
}

/// `1ᵀU(m)·c₁`, the product the view shows, is the sum of the Apéry
/// elements, `Σ w_i = mg + m(m − 1)/2`.
pub proof fn lemma_one_u_c1(s: Semigroup)
    requires
        s.wf(),
        s.m >= 2,
    ensures
        sdot(one_u_spec(s.m as int), c1_spec(s), s.m - 1) == seq_sum(s.apery_set@),
        sdot(one_u_spec(s.m as int), c1_spec(s), s.m - 1) == s.m * s.g + s.m * (s.m - 1) / 2,
{
    let m = s.m as int;
    let w1 = s.apery_set@[1] as int;
    let big_a = m * (m - 1) / 2 - m * (m - 2);
    lemma_one_u_partial(s, m - 1);
    lemma_tsum(s, m - 1);
    lemma_bsum(s, m - 1);
    lemma_apery_zero(s);
    assert((m - 1 + 1) % m == 0) by (nonlinear_arith) requires m >= 2;
    lemma_pw_total(s, m - 1);
    assert(s.apery_set@.subrange(0, m) =~= s.apery_set@);
    lemma_gap_total_is_genus(s);
    let t = tsum(s, m - 1);
    let b = bsum(s, m - 1);
    let total = pw(s, m - 1);
    assert(t == w1) by (nonlinear_arith) requires m * t == m * w1, m >= 2;
    let p = m * (m - 1) / 2;
    let h = (m - 1) * (m - 2) / 2;
    lemma_triangle_even(m);
    lemma_triangle_even(m - 1);
    assert(m * (m - 2) == m * (m - 1) - m) by (nonlinear_arith);
    assert((m - 1) * (m - 2) == m * (m - 1) - 2 * (m - 1)) by (nonlinear_arith);
    assert(p + h - m * (m - 2) - 1 == 0);
    assert(big_a * w1 + w1 * h - w1 == w1 * (big_a + h - 1)) by (nonlinear_arith);
    assert(w1 * (big_a + h - 1) == 0) by (nonlinear_arith) requires big_a + h - 1 == 0;
    assert(m * b == w1 * h + total - w1);
    assert(big_a * t == big_a * w1);
}

/// `Σ_{b<k} (1ᵀU(m))[b]·c(b + 1, 1) = A·T(k) + m·Σ_{b<k} b·c(b + 1, 1)` with
/// `A = m(m − 1)/2 − m(m − 2)`.
proof fn lemma_one_u_partial(s: Semigroup, k: int)
    requires
        s.wf(),
        s.m >= 2,
        0 <= k <= s.m - 1,
    ensures
        sdot(one_u_spec(s.m as int), c1_spec(s), k) == (s.m * (s.m - 1) / 2 - s.m * (s.m - 2)) * tsum(s, k) + s.m
            * bsum(s, k),
    decreases k,
{
    if k > 0 {
        let m = s.m as int;
        lemma_one_u_partial(s, k - 1);
        lemma_entries(s, k - 1);
        lemma_col_u(m, k - 1, m - 1);
        let big_a = m * (m - 1) / 2 - m * (m - 2);
        let c = ck(s, k);
        let col = col_u(m, k - 1, m - 1);
        assert(col == big_a + m * (k - 1)) by (nonlinear_arith)
            requires col == (m - 1) * m / 2 - m * (m - 2 - (k - 1)), big_a == m * (m - 1) / 2 - m * (m - 2), m - 2 >= k - 1;
        let t = tsum(s, k - 1);
        let b = bsum(s, k - 1);
        assert(col * c == big_a * c + m * ((k - 1) * c)) by (nonlinear_arith) requires col == big_a + m * (k - 1);
        assert(big_a * (t + c) == big_a * t + big_a * c) by (nonlinear_arith);
        assert(m * (b + (k - 1) * c) == m * b + m * ((k - 1) * c)) by (nonlinear_arith);
    }
}

/// `Σ_{b<k} zd(m)[b]·c(b + 1, 1) = 2·Σ_{b<k} b·c(b + 1, 1) + (3 − m)·T(k)`.
proof fn lemma_zd_partial(s: Semigroup, k: int)
    requires
        s.wf(),
        s.m >= 2,
        0 <= k <= s.m - 1,
    ensures
        sdot(zd_spec(s.m as int), c1_spec(s), k) == 2 * bsum(s, k) + (3 - s.m) * tsum(s, k),
    decreases k,
{
    if k > 0 {
        let m = s.m as int;
        lemma_zd_partial(s, k - 1);
        lemma_entries(s, k - 1);
        let c = ck(s, k);
        let t = tsum(s, k - 1);
        let b = bsum(s, k - 1);
        assert(zd_entry(m, k - 1) * c == 2 * ((k - 1) * c) + (3 - m) * c) by (nonlinear_arith)
            requires zd_entry(m, k - 1) == 2 * (k - 1) - m + 3;
        assert((3 - m) * (t + c) == (3 - m) * t + (3 - m) * c) by (nonlinear_arith);
    }
}

/// `zd(m)·c₁ = 2g + m − 1 = f + m + r`: the three numbers the view shows
/// at the foot of the `D(m)·c₁` table agree.
pub proof fn lemma_zd_c1(s: Semigroup)
    requires
        s.wf(),
        s.m >= 2,
    ensures
        sdot(zd_spec(s.m as int), c1_spec(s), s.m - 1) == 2 * s.g + s.m - 1,
        sdot(zd_spec(s.m as int), c1_spec(s), s.m - 1) == s.f + s.m + s.r,
{
    let m = s.m as int;
    let w1 = s.apery_set@[1] as int;
    lemma_zd_partial(s, m - 1);
    lemma_tsum(s, m - 1);
    lemma_bsum(s, m - 1);
    lemma_apery_zero(s);
    assert((m - 1 + 1) % m == 0) by (nonlinear_arith) requires m >= 2;
    lemma_pw_total(s, m - 1);
    assert(s.apery_set@.subrange(0, m) =~= s.apery_set@);
    lemma_gap_total_is_genus(s);
    lemma_reflection(s);
    let t = tsum(s, m - 1);
    let b = bsum(s, m - 1);
    let total = pw(s, m - 1);
    let g = s.g as int;
    assert(t == w1) by (nonlinear_arith) requires m * t == m * w1, m >= 2;
    let z = 2 * b + (3 - m) * t;
    let p = m * (m - 1) / 2;
    let h = (m - 1) * (m - 2) / 2;
    lemma_triangle_even(m);
    lemma_triangle_even(m - 1);
    assert(m * b == w1 * h + total - w1);
    assert(m * z == 2 * (m * b) + (3 - m) * (m * t)) by (nonlinear_arith) requires z == 2 * b + (3 - m) * t;
    assert(m * t == m * w1);
    assert((3 - m) * (m * w1) + 2 * (w1 * h) - 2 * w1 == w1 * ((3 - m) * m + 2 * h - 2)) by (nonlinear_arith);
    assert((3 - m) * m + 2 * h - 2 == 0) by (nonlinear_arith) requires 2 * h == (m - 1) * (m - 2);
    assert(w1 * ((3 - m) * m + 2 * h - 2) == 0) by (nonlinear_arith) requires (3 - m) * m + 2 * h - 2 == 0;
    assert(m * z == 2 * total);
    assert(m * g == total - p);
    assert(m * z == m * (2 * g + m - 1)) by (nonlinear_arith) requires m * z == 2 * total, m * g == total - p, 2 * p == m * (m - 1);
    assert(z == 2 * g + m - 1) by (nonlinear_arith) requires m * z == m * (2 * g + m - 1), m >= 2;
}

/// `Σ_{b<k} D(m)[a][b]·c(b + 1, 1)` is the same sum for `zd(m)` less the
/// one for row `a` of `U(m)`.
proof fn lemma_d_partial(s: Semigroup, a: int, k: int)
    requires
        s.wf(),
        s.m >= 2,
        0 <= a < s.m - 1,
        0 <= k <= s.m - 1,
    ensures
        sdot(d_row(s.m as int, a), c1_spec(s), k) == sdot(zd_spec(s.m as int), c1_spec(s), k) - uc_dot(s, a, 0, k),
    decreases k,
{
    if k > 0 {
        let m = s.m as int;
        lemma_d_partial(s, a, k - 1);
        lemma_entries(s, k - 1);
        let c = ck(s, k);
        assert(kunz_spec(s.apery_set@, m, k, 0int + 1) == c);
        let d = d_entry(m, a, k - 1);
        assert(-3 * m <= d <= 3 * m);
        lemma_small_sizes(s);
        assert(d_row(m, a)[k - 1] as int == d);
        assert(d * c == zd_entry(m, k - 1) * c - u_entry(m, a, k - 1) * c) by (nonlinear_arith)
            requires d == zd_entry(m, k - 1) - u_entry(m, a, k - 1);
    }
}

/// `D(m)·c₁`, as the view shows it, lists the anti-diagonal sums of the
/// Kunz matrix: its entry `a` is the sum through the class of `a + 1`.
pub proof fn lemma_d_prod(s: Semigroup, a: int)
    requires
        s.wf(),
        s.m >= 2,
        0 <= a < s.m - 1,
    ensures
        d_prod_spec(s)[a] as int == anti_diag_sum(s.apery_set@, s.m as int, a + 1, s.m as int),
{
    let m = s.m as int;
    lemma_d_partial(s, a, m - 1);
    lemma_zd_c1(s);
    lemma_uc_first_column(s, a);
    lemma_diag(s, a + 1);
    let v = sdot(d_row(m, a), c1_spec(s), m - 1);
    assert(v == s.f + s.m + s.r - s.apery_set@[a + 1]);
    assert(s.apery_set@[a + 1] <= s.f + s.m);
    assert(s.r <= s.f) by {
        crate::generated::lemma_count_le(crate::semigroup::reflected_pred(s.gen_set@, s.f as int), s.f as int);
    }
    lemma_small_sizes(s);
}


/// `Σ_{col<k} P[(a, b)][col]·c(col + 1, 1)` for the pair-relations row of `(a, b)`.
pub open spec fn pair_dot(s: Semigroup, a: int, b: int, k: int) -> int
    decreases k,
{
    if k <= 0 {
        0
    } else {
        pair_dot(s, a, b, k - 1) + pair_entry(s.m as int, a, b, k - 1) * ck(s, k)
    }
}

/// `m` times a partial pair-relations product is the matching combination
/// of partial rows of `U(m)·C_red`.
proof fn lemma_pair_dot_partial(s: Semigroup, a: int, b: int, k: int)
    requires
        s.wf(),
        s.m >= 2,
        0 <= a <= b < s.m - 1,
        0 <= k <= s.m - 1,
    ensures
        s.m * pair_dot(s, a, b, k) == uc_dot(s, a, 0, k) + uc_dot(s, b, 0, k)
            - (if pair_k(s.m as int, a, b) != 0 { uc_dot(s, pair_k(s.m as int, a, b) - 1, 0, k) } else { 0 }),
    decreases k,
{
    if k > 0 {
        let m = s.m as int;
        let kk = pair_k(m, a, b);
        lemma_pair_dot_partial(s, a, b, k - 1);
        lemma_pair_unscaled(m, a, b, k - 1);
        let c = ck(s, k);
        assert(kunz_spec(s.apery_set@, m, k, 0int + 1) == c);
        let pe = pair_entry(m, a, b, k - 1);
        let ua = u_entry(m, a, k - 1);
        let ub = u_entry(m, b, k - 1);
        let uk = if kk != 0 { u_entry(m, kk - 1, k - 1) } else { 0 };
        assert(m * pe == ua + ub - uk);
        assert(m * (pe * c) == ua * c + ub * c - uk * c) by (nonlinear_arith) requires m * pe == ua + ub - uk;
        assert(m * pair_dot(s, a, b, k) == m * pair_dot(s, a, b, k - 1) + m * (pe * c)) by (nonlinear_arith)
            requires pair_dot(s, a, b, k) == pair_dot(s, a, b, k - 1) + pe * c;
    }
}

/// A row of the pair relations times `c₁` is a Kunz coefficient: for the
/// pair `(a, b)`, `Σ_col P[(a, b)][col]·c(col + 1, 1) = c(a + 1, b + 1)`.
pub proof fn lemma_pair_relation_c1(s: Semigroup, a: int, b: int)
    requires
        s.wf(),
        s.m >= 2,
        0 <= a <= b < s.m - 1,
    ensures
        pair_dot(s, a, b, s.m - 1) == kunz_spec(s.apery_set@, s.m as int, a + 1, b + 1),
{
    let m = s.m as int;
    let kk = pair_k(m, a, b);
    lemma_pair_dot_partial(s, a, b, m - 1);
    lemma_uc_first_column(s, a);
    lemma_uc_first_column(s, b);
    lemma_apery_zero(s);
    let wa = s.apery_set@[a + 1] as int;
    let wb = s.apery_set@[b + 1] as int;
    let wk = s.apery_set@[kk] as int;
    if kk != 0 {
        lemma_uc_first_column(s, kk - 1);
    }
    assert(kk == (a + 1 + b + 1) % m) by (nonlinear_arith)
        requires kk == (if a + b + 2 >= m { a + b + 2 - m } else { a + b + 2 }), 0 <= a, a <= b, b < m - 1;
    assert((a + 1) % m == a + 1) by (nonlinear_arith) requires 0 <= a < m - 1;
    assert((b + 1) % m == b + 1) by (nonlinear_arith) requires 0 <= b < m - 1;
    lemma_kunz_exact(s, a + 1, b + 1);
    let t = pair_dot(s, a, b, m - 1);
    assert(m * t == wa + wb - wk);
    let q = (wa + wb - wk) / m;
    assert(wa + wb - wk == m * q) by (nonlinear_arith) requires (wa + wb - wk) % m == 0, q == (wa + wb - wk) / m, m >= 2;
    assert(t == q) by (nonlinear_arith) requires m * t == m * q, m >= 2;
}


/// `w_{1 mod m} + w_{2 mod m} + … + w_{n mod m}`: the Apéry elements summed
/// cyclically.
pub open spec fn cyc(s: Semigroup, n: int) -> int
    decreases n,
{
    if n <= 0 {
        0
    } else {
        cyc(s, n - 1) + s.apery_set@[n % (s.m as int)]
    }
}

/// Shifting the range of a cyclic sum by a whole period adds `cyc(m)`.
proof fn lemma_cyc_period(s: Semigroup, n: int)
    requires
        s.m >= 1,
        0 <= n,
    ensures
        cyc(s, n + s.m) == cyc(s, n) + cyc(s, s.m as int),
    decreases n,
{
    if n > 0 {
        lemma_cyc_period(s, n - 1);
        let m = s.m as int;
        vstd::arithmetic::div_mod::lemma_mod_add_multiples_vanish(n, m);
        assert(cyc(s, n + m) == cyc(s, n - 1 + m) + s.apery_set@[(n + m) % m]);
    }
}

/// `c(1, j) + … + c(k, j)`.
pub open spec fn csum(s: Semigroup, j: int, k: int) -> int
    decreases k,
{
    if k <= 0 {
        0
    } else {
        csum(s, j, k - 1) + kunz_spec(s.apery_set@, s.m as int, k, j)
    }
}

/// `m·(c(1, j) + … + c(k, j)) = cyc(k) + k·w_j − cyc(k + j) + cyc(j)`.
proof fn lemma_csum(s: Semigroup, j: int, k: int)
    requires
        s.wf(),
        s.m >= 2,
        1 <= j <= s.m - 1,
        0 <= k <= s.m - 1,
    ensures
        s.m * csum(s, j, k) == cyc(s, k) + k * s.apery_set@[j] - cyc(s, k + j) + cyc(s, j),
    decreases k,
{
    let m = s.m as int;
    let wj = s.apery_set@[j] as int;
    if k > 0 {
        lemma_csum(s, j, k - 1);
        lemma_kunz_exact(s, k, j);
        assert(k % m == k) by (nonlinear_arith) requires 0 <= k < m;
        assert(j % m == j) by (nonlinear_arith) requires 0 <= j < m;
        let prev = csum(s, j, k - 1);
        let c = kunz_spec(s.apery_set@, m, k, j);
        assert(cyc(s, k) == cyc(s, k - 1) + s.apery_set@[k]);
        assert(cyc(s, k + j) == cyc(s, k - 1 + j) + s.apery_set@[(k + j) % m]);
        assert(m * (prev + c) == m * prev + m * c) by (nonlinear_arith);
        assert(k * wj == (k - 1) * wj + wj) by (nonlinear_arith);
    } else {
        assert(m * csum(s, j, 0) == 0) by (nonlinear_arith) requires csum(s, j, 0) == 0;
        assert(k * wj == 0) by (nonlinear_arith) requires k == 0;
    }
}

/// Row `a` of `U(m)` against column `j` of the Kunz coefficients:
/// `Σ_{l<k} U(m)[a][l]·c(l + 1, b + 1) = (a + 1)·csum(k) − m·csum(min(k, a))`.
proof fn lemma_uc_split(s: Semigroup, a: int, b: int, k: int)
    requires
        0 <= a,
        0 <= k,
    ensures
        uc_dot(s, a, b, k) == (a + 1) * csum(s, b + 1, k) - s.m * csum(s, b + 1, if k <= a { k } else { a }),
    decreases k,
{
    let m = s.m as int;
    if k > 0 {
        lemma_uc_split(s, a, b, k - 1);
        let t = csum(s, b + 1, k - 1);
        let c = kunz_spec(s.apery_set@, m, k, b + 1);
        assert(uc_dot(s, a, b, k) == uc_dot(s, a, b, k - 1) + u_entry(m, a, k - 1) * c);
        assert(csum(s, b + 1, k) == t + c);
        assert((a + 1) * (t + c) == (a + 1) * t + (a + 1) * c) by (nonlinear_arith);
        if k - 1 < a {
            assert(m * (t + c) == m * t + m * c) by (nonlinear_arith);
            assert((a + 1 - m) * c == (a + 1) * c - m * c) by (nonlinear_arith);
        }
    } else {
        assert((a + 1) * csum(s, b + 1, 0) == 0) by (nonlinear_arith) requires csum(s, b + 1, 0) == 0;
        assert(m * csum(s, b + 1, 0) == 0) by (nonlinear_arith) requires csum(s, b + 1, 0) == 0;
    }
}

/// The entries of `U(m)·C_red` in closed form:
/// `(U(m)·C_red)[a][b] = cyc(a + b + 1) − cyc(a) − cyc(b)`.
pub proof fn lemma_uc_closed_form(s: Semigroup, a: int, b: int)
    requires
        s.wf(),
        s.m >= 2,
        0 <= a < s.m - 1,
        0 <= b < s.m - 1,
    ensures
        uc_dot(s, a, b, s.m - 1) == cyc(s, a + b + 1) - cyc(s, a) - cyc(s, b),
{
    let m = s.m as int;
    let j = b + 1;
    let wj = s.apery_set@[j] as int;
    lemma_uc_split(s, a, b, m - 1);
    lemma_csum(s, j, m - 1);
    lemma_csum(s, j, a);
    lemma_cyc_period(s, j - 1);
    lemma_apery_zero(s);
    vstd::arithmetic::div_mod::lemma_mod_self_0(m);
    assert(cyc(s, m) == cyc(s, m - 1) + s.apery_set@[m % m]);
    assert(j % m == j) by (nonlinear_arith) requires 0 <= j < m;
    assert(cyc(s, j) == cyc(s, j - 1) + wj);
    assert(m - 1 + j == j - 1 + m);
    let full = csum(s, j, m - 1);
    assert(m * full == m * wj) by (nonlinear_arith)
        requires m * full == cyc(s, m - 1) + (m - 1) * wj - cyc(s, m - 1 + j) + cyc(s, j),
            cyc(s, m - 1 + j) == cyc(s, j - 1) + cyc(s, m - 1),
            cyc(s, j) == cyc(s, j - 1) + wj;
    assert(full == wj) by (nonlinear_arith) requires m * full == m * wj, m >= 2;
    let part = csum(s, j, a);
    assert(uc_dot(s, a, b, m - 1) == (a + 1) * full - m * part);
    assert((a + 1) * wj - m * part == cyc(s, a + j) - cyc(s, a) - cyc(s, j - 1)) by (nonlinear_arith)
        requires m * part == cyc(s, a) + a * wj - cyc(s, a + j) + cyc(s, j),
            cyc(s, j) == cyc(s, j - 1) + wj;
}

/// How `U(m)·C_red` reads off the Apéry set: it is symmetric, its first row
/// (like its first column) lists `w_1, …, w_{m−1}`, and its last row is
/// `w_{m−1} − w_b`.
pub proof fn lemma_uc_readings(s: Semigroup, a: int, b: int)
    requires
        s.wf(),
        s.m >= 2,
        0 <= a < s.m - 1,
        0 <= b < s.m - 1,
    ensures
        uc_dot(s, a, b, s.m - 1) == uc_dot(s, b, a, s.m - 1),
        uc_dot(s, 0, b, s.m - 1) == s.apery_set@[b + 1],
        uc_dot(s, s.m - 2, b, s.m - 1) == s.apery_set@[s.m - 1] - s.apery_set@[b],
{
    let m = s.m as int;
    lemma_uc_closed_form(s, a, b);
    lemma_uc_closed_form(s, b, a);
    lemma_uc_closed_form(s, 0, b);
    lemma_uc_closed_form(s, m - 2, b);
    lemma_apery_zero(s);
    assert((b + 1) % m == b + 1) by (nonlinear_arith) requires 0 <= b + 1 < m;
    assert(cyc(s, b + 1) == cyc(s, b) + s.apery_set@[b + 1]);
    assert(cyc(s, 0) == 0);
    assert((m - 1) % m == m - 1) by (nonlinear_arith) requires m >= 2;
    assert(cyc(s, m - 1) == cyc(s, m - 2) + s.apery_set@[m - 1]);
    vstd::arithmetic::div_mod::lemma_mod_self_0(m);
    assert(cyc(s, m) == cyc(s, m - 1) + s.apery_set@[m % m]);
    if b == 0 {
        assert(m - 2 + b + 1 == m - 1);
    } else {
        lemma_cyc_period(s, b - 1);
        assert(m - 2 + b + 1 == b - 1 + m);
        assert(b % m == b) by (nonlinear_arith) requires 0 <= b < m;
        assert(cyc(s, b) == cyc(s, b - 1) + s.apery_set@[b]);
    }
}

/// The product that [`u_times_c_red`](crate::kunz_matrices::u_times_c_red)
/// computes from [`c_red`](crate::kunz_matrices::c_red) of a semigroup reads
/// off its Apéry set: entry `(a, b)` is `cyc(a + b + 1) − cyc(a) − cyc(b)`, the
/// matrix is symmetric, row 0 is `w_{b+1}` and the last row is `w_{m−1} − w_b`.
pub proof fn lemma_u_times_c_red_readings(s: Semigroup, c: DenseMatrix<usize>, a: int, b: int)
    requires
        s.wf(),
        s.m >= 2,
        0 <= a < s.m - 1,
        0 <= b < s.m - 1,
        forall|x: int, y: int| 0 <= x < s.m - 1 && 0 <= y < s.m - 1
            ==> #[trigger] c.at(x, y) == kunz_spec(s.apery_set@, s.m as int, x + 1, y + 1),
    ensures
        u_dot(c, s.m as int, a, b, s.m - 1) == cyc(s, a + b + 1) - cyc(s, a) - cyc(s, b),
        u_dot(c, s.m as int, a, b, s.m - 1) == u_dot(c, s.m as int, b, a, s.m - 1),
        u_dot(c, s.m as int, 0, b, s.m - 1) == s.apery_set@[b + 1],
        u_dot(c, s.m as int, a, 0, s.m - 1) == s.apery_set@[a + 1],
        u_dot(c, s.m as int, s.m - 2, b, s.m - 1) == s.apery_set@[s.m - 1] - s.apery_set@[b],
{
    let m = s.m as int;
    lemma_u_dot_is_uc(s, c, a, b, m - 1);
    lemma_u_dot_is_uc(s, c, b, a, m - 1);
    lemma_u_dot_is_uc(s, c, 0, b, m - 1);
    lemma_u_dot_is_uc(s, c, a, 0, m - 1);
    lemma_u_dot_is_uc(s, c, m - 2, b, m - 1);
    lemma_uc_closed_form(s, a, b);
    lemma_uc_readings(s, a, b);
    lemma_uc_readings(s, 0, a);
}

} // verus!
