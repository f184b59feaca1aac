//! The slices `k*` of the Kunz cone: at a point `c = (c_{1,1}, …, c_{1,m−1})`
//! with `κ_j = j·q₁ − (c_{1,1} + … + c_{1,j−1})`, the strict and non-strict
//! rows of `k*` hold exactly when `k*` is the smallest index at which `κ` is
//! largest. So every point lies in exactly one slice.
use vstd::prelude::*;
use crate::cones::{strict_row, strict_rows, weak_row, weak_rows};
use crate::kunz_matrices::ind;

verus! {

/// `Σ_{a<n} row[a]·c[a]`.
pub open spec fn row_dot(row: Seq<i64>, c: Seq<int>, n: int) -> int
    decreases n,
{
    if n <= 0 {
        0
    } else {
        row_dot(row, c, n - 1) + row[n - 1] * c[n - 1]
    }
}

/// The value at `c` of an inhomogeneous row: its coefficients against `c`
/// plus its last entry.
pub open spec fn row_value(row: Seq<i64>, c: Seq<int>) -> int {
    row_dot(row, c, c.len() as int) + row[c.len() as int]
}

/// `c[0] + … + c[n − 1]`.
pub open spec fn prefix(c: Seq<int>, n: int) -> int
    decreases n,
{
    if n <= 0 {
        0
    } else {
        prefix(c, n - 1) + c[n - 1]
    }
}

/// `κ_j = j·q₁ − (c_{1,1} + … + c_{1,j−1})`.
pub open spec fn kappa_at(c: Seq<int>, q1: int, j: int) -> int {
    j * q1 - prefix(c, j - 1)
}

/// Every strict and non-strict row of `k*` holds at `c`.
pub open spec fn in_stratum(m: int, q1: int, kstar: int, c: Seq<int>) -> bool {
    &&& forall|t: int| 0 <= t < strict_rows(m, q1, kstar).len() ==> row_value(#[trigger] strict_rows(m, q1, kstar)[t], c) >= 0
    &&& forall|t: int| 0 <= t < weak_rows(m, q1, kstar).len() ==> row_value(#[trigger] weak_rows(m, q1, kstar)[t], c) >= 0
}

/// `k*` is the smallest index in `1..m` at which `κ` is largest.
pub open spec fn first_argmax(m: int, q1: int, kstar: int, c: Seq<int>) -> bool {
    &&& 1 <= kstar < m
    &&& forall|j: int| 1 <= j < m ==> #[trigger] kappa_at(c, q1, j) <= kappa_at(c, q1, kstar)
    &&& forall|j: int| 1 <= j < kstar ==> #[trigger] kappa_at(c, q1, j) < kappa_at(c, q1, kstar)
}

/// A row that is `e` on the band `lo ≤ a < hi` and 0 elsewhere sums to
/// `e·(prefix(min(n, hi)) − prefix(min(n, lo)))` over its first `n` entries.
proof fn lemma_band_dot(row: Seq<i64>, c: Seq<int>, lo: int, hi: int, e: int, n: int)
    requires
        0 <= lo <= hi,
        0 <= n,
        forall|a: int| 0 <= a < n ==> #[trigger] row[a] as int == e * ind(lo <= a && a < hi),
    ensures
        row_dot(row, c, n) == e * (prefix(c, if n < hi { n } else { hi }) - prefix(c, if n < lo { n } else { lo })),
    decreases n,
{
    if n > 0 {
        lemma_band_dot(row, c, lo, hi, e, n - 1);
        let x = c[n - 1];
        assert(row[n - 1] as int == e * ind(lo <= n - 1 && n - 1 < hi));
        if lo <= n - 1 && n - 1 < hi {
            assert(e * (prefix(c, n - 1) - prefix(c, lo)) + e * x == e * (prefix(c, n - 1) + x - prefix(c, lo))) by (nonlinear_arith);
        } else {
            assert(row[n - 1] * x == 0) by (nonlinear_arith) requires row[n - 1] as int == e * 0;
        }
    } else {
        assert(e * (prefix(c, 0) - prefix(c, 0)) == 0) by (nonlinear_arith);
    }
}

/// The strict row of `k < k*` reads `κ_{k*} − κ_k − 1`; the non-strict row
/// of `k > k*` reads `κ_{k*} − κ_k`.
proof fn lemma_row_values(m: int, q1: int, kstar: int, k: int, c: Seq<int>)
    requires
        m >= 2,
        c.len() == m - 1,
        0 <= q1,
        m * q1 < i64::MAX,
        1 <= kstar < m,
        1 <= k < m,
    ensures
        k < kstar ==> row_value(strict_row(m, q1, kstar, k), c) == kappa_at(c, q1, kstar) - kappa_at(c, q1, k) - 1,
        k > kstar ==> row_value(weak_row(m, q1, kstar, k), c) == kappa_at(c, q1, kstar) - kappa_at(c, q1, k),
{
    let n = m - 1;
    if k < kstar {
        let row = strict_row(m, q1, kstar, k);
        assert(0 <= (kstar - k) * q1 <= m * q1) by (nonlinear_arith) requires 0 <= kstar - k <= m, q1 >= 0;
        assert(row[n] as int == (kstar - k) * q1 - 1);
        assert forall|a: int| 0 <= a < n implies #[trigger] row[a] as int == -1 * ind(k - 1 <= a && a < kstar - 1) by {}
        lemma_band_dot(row, c, k - 1, kstar - 1, -1, n);
        assert(kstar * q1 - k * q1 == (kstar - k) * q1) by (nonlinear_arith);
    }
    if k > kstar {
        let row = weak_row(m, q1, kstar, k);
        assert(0 <= (k - kstar) * q1 <= m * q1) by (nonlinear_arith) requires 0 <= k - kstar <= m, q1 >= 0;
        assert(row[n] as int == -((k - kstar) * q1));
        assert forall|a: int| 0 <= a < n implies #[trigger] row[a] as int == 1 * ind(kstar - 1 <= a && a < k - 1) by {}
        lemma_band_dot(row, c, kstar - 1, k - 1, 1, n);
        assert(k * q1 - kstar * q1 == (k - kstar) * q1) by (nonlinear_arith);
    }
}

/// The rows of `k*` hold at `c` exactly when `k*` is the smallest index at
/// which `κ` is largest.
pub proof fn lemma_stratum_is_first_argmax(m: int, q1: int, kstar: int, c: Seq<int>)
    requires
        m >= 2,
        c.len() == m - 1,
        0 <= q1,
        m * q1 < i64::MAX,
        1 <= kstar < m,
    ensures
        in_stratum(m, q1, kstar, c) <==> first_argmax(m, q1, kstar, c),
{
    assert forall|k: int| 1 <= k < m implies {
        &&& k < kstar ==> row_value(strict_row(m, q1, kstar, k), c) == kappa_at(c, q1, kstar) - kappa_at(c, q1, k) - 1
        &&& k > kstar ==> row_value(weak_row(m, q1, kstar, k), c) == kappa_at(c, q1, kstar) - kappa_at(c, q1, k)
    } by {
        lemma_row_values(m, q1, kstar, k, c);
    }
    if in_stratum(m, q1, kstar, c) {
        assert forall|j: int| 1 <= j < m implies #[trigger] kappa_at(c, q1, j) <= kappa_at(c, q1, kstar) by {
            if j < kstar {
                assert(strict_rows(m, q1, kstar)[j - 1] == strict_row(m, q1, kstar, j));
            } else if j > kstar {
                assert(weak_rows(m, q1, kstar)[j - kstar - 1] == weak_row(m, q1, kstar, j));
            }
        }
        assert forall|j: int| 1 <= j < kstar implies #[trigger] kappa_at(c, q1, j) < kappa_at(c, q1, kstar) by {
            assert(strict_rows(m, q1, kstar)[j - 1] == strict_row(m, q1, kstar, j));
        }
    }
    if first_argmax(m, q1, kstar, c) {
        assert forall|t: int| 0 <= t < strict_rows(m, q1, kstar).len() implies row_value(#[trigger] strict_rows(m, q1, kstar)[t], c) >= 0 by {
            assert(kappa_at(c, q1, t + 1) < kappa_at(c, q1, kstar));
        }
        assert forall|t: int| 0 <= t < weak_rows(m, q1, kstar).len() implies row_value(#[trigger] weak_rows(m, q1, kstar)[t], c) >= 0 by {
            assert(kappa_at(c, q1, kstar + 1 + t) <= kappa_at(c, q1, kstar));
        }
    }
}

/// The smallest index in `1..=n` at which `κ` is largest.
pub open spec fn first_max_upto(c: Seq<int>, q1: int, n: int) -> int
    decreases n,
{
    if n <= 1 {
        1
    } else {
        let p = first_max_upto(c, q1, n - 1);
        if kappa_at(c, q1, n) > kappa_at(c, q1, p) { n } else { p }
    }
}

proof fn lemma_first_max_upto(c: Seq<int>, q1: int, n: int)
    requires
        n >= 1,
    ensures
        1 <= first_max_upto(c, q1, n) <= n,
        forall|j: int| 1 <= j <= n ==> #[trigger] kappa_at(c, q1, j) <= kappa_at(c, q1, first_max_upto(c, q1, n)),
        forall|j: int| 1 <= j < first_max_upto(c, q1, n) ==> #[trigger] kappa_at(c, q1, j) < kappa_at(c, q1, first_max_upto(c, q1, n)),
    decreases n,
{
    if n > 1 {
        lemma_first_max_upto(c, q1, n - 1);
    }
}

/// Every point lies in exactly one slice `k*`: the rows of some `k*` in
/// `1..m` hold at `c`, and the rows of two different `k*` never hold together.
pub proof fn lemma_kstar_strata_partition(m: int, q1: int, c: Seq<int>)
    requires
        m >= 2,
        c.len() == m - 1,
        0 <= q1,
        m * q1 < i64::MAX,
    ensures
        exists|k: int| 1 <= k < m && #[trigger] in_stratum(m, q1, k, c),
        forall|k1: int, k2: int| 1 <= k1 < m && 1 <= k2 < m && #[trigger] in_stratum(m, q1, k1, c)
            && #[trigger] in_stratum(m, q1, k2, c) ==> k1 == k2,
{
    let k0 = first_max_upto(c, q1, m - 1);
    lemma_first_max_upto(c, q1, m - 1);
    lemma_stratum_is_first_argmax(m, q1, k0, c);
    assert(in_stratum(m, q1, k0, c));
    assert forall|k1: int, k2: int| 1 <= k1 < m && 1 <= k2 < m && #[trigger] in_stratum(m, q1, k1, c)
        && #[trigger] in_stratum(m, q1, k2, c) implies k1 == k2 by {
        lemma_stratum_is_first_argmax(m, q1, k1, c);
        lemma_stratum_is_first_argmax(m, q1, k2, c);
        if k1 < k2 {
            assert(kappa_at(c, q1, k1) < kappa_at(c, q1, k2));
            assert(kappa_at(c, q1, k2) <= kappa_at(c, q1, k1));
        } else if k2 < k1 {
            assert(kappa_at(c, q1, k2) < kappa_at(c, q1, k1));
            assert(kappa_at(c, q1, k1) <= kappa_at(c, q1, k2));
        }
    }
}

} // verus!
