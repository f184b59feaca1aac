//! The coordinates `κ_k = (w_k − k)/m` of the Kunz cone against the
//! coordinates `c₁`: the conversion [`kappa_to_c1`](crate::cones::kappa_to_c1)
//! is one-to-one, and it turns the Kunz quotients of a semigroup into the
//! first column `c(1, j)` of its Kunz matrix, so both coordinate systems
//! describe the same points.
use vstd::prelude::*;
use crate::cones::{kappa_c1, kappa_fits};
use crate::identities::{lemma_apery_zero, lemma_kunz_exact};
use crate::inspect::kunz_spec;
use crate::semigroup::{apery_min, Semigroup};

verus! {

/// The Kunz quotient `κ_k = (w_k − k)/m`.
pub open spec fn kunz_quotient(s: Semigroup, k: int) -> int {
    (s.apery_set@[k] - k) / (s.m as int)
}

/// The free coordinates `(κ₂, …, κ_{m−1})` of a semigroup.
pub open spec fn kappa_free_of(s: Semigroup) -> Seq<i64> {
    Seq::new((s.m - 2) as nat, |t: int| kunz_quotient(s, t + 2) as i64)
}

/// Two points with equal images agree up to coordinate `i`.
proof fn lemma_kappa_prefix_equal(k1: Seq<i64>, k2: Seq<i64>, q1: int, i: int)
    requires
        kappa_fits(k1, q1),
        kappa_fits(k2, q1),
        k1.len() == k2.len(),
        kappa_c1(k1, q1) == kappa_c1(k2, q1),
        0 <= i < k1.len(),
    ensures
        k1[i] == k2[i],
    decreases i,
{
    if i == 0 {
        assert(kappa_c1(k1, q1)[0] == kappa_c1(k2, q1)[0]);
        assert(kappa_c1(k1, q1)[0] as int == 2 * q1 - k1[0]);
        assert(kappa_c1(k2, q1)[0] as int == 2 * q1 - k2[0]);
    } else {
        lemma_kappa_prefix_equal(k1, k2, q1, i - 1);
        assert(kappa_c1(k1, q1)[i] == kappa_c1(k2, q1)[i]);
        assert(kappa_c1(k1, q1)[i] as int == q1 + k1[i - 1] - k1[i]);
        assert(kappa_c1(k2, q1)[i] as int == q1 + k2[i - 1] - k2[i]);
    }
}

/// The conversion from `κ` to `c₁` is one-to-one: for a fixed `q₁`, two
/// points of the same dimension with the same image are equal.
pub proof fn lemma_kappa_c1_injective(k1: Seq<i64>, k2: Seq<i64>, q1: int)
    requires
        kappa_fits(k1, q1),
        kappa_fits(k2, q1),
        k1.len() == k2.len(),
        kappa_c1(k1, q1) == kappa_c1(k2, q1),
    ensures
        k1 == k2,
{
    assert forall|i: int| 0 <= i < k1.len() implies k1[i] == k2[i] by {
        lemma_kappa_prefix_equal(k1, k2, q1, i);
    }
    assert(k1 =~= k2);
}

/// `w_k = m·κ_k + k`, with `0 ≤ κ_k ≤ w_k`.
proof fn lemma_apery_quotient(s: Semigroup, k: int)
    requires
        s.wf(),
        0 <= k < s.m,
    ensures
        s.apery_set@[k] == s.m * kunz_quotient(s, k) + k,
        0 <= kunz_quotient(s, k) <= s.apery_set@[k],
{
    let m = s.m as int;
    let w = s.apery_set@[k] as int;
    assert(apery_min(s.gen_set@, m, w, k));
    vstd::arithmetic::div_mod::lemma_fundamental_div_mod(w, m);
    let q = w / m;
    assert(w == m * q + k);
    assert(w - k == m * q);
    vstd::arithmetic::div_mod::lemma_div_multiples_vanish(q, m);
    assert(kunz_quotient(s, k) == q);
    assert(q >= 0) by (nonlinear_arith) requires w == m * q + k, w >= 0, 0 <= k < m;
    assert(q <= w) by (nonlinear_arith) requires w == m * q + k, m >= 1, k >= 0, q >= 0;
}

/// The Kunz quotients of a semigroup with `m ≥ 3`, converted with
/// `q₁ = κ₁`, give the first column of its Kunz matrix:
/// entry `j − 1` of the image is `c(1, j)` for `1 ≤ j ≤ m − 1`.
pub proof fn lemma_kappa_gives_c1(s: Semigroup)
    requires
        s.wf(),
        s.m >= 3,
    ensures
        kappa_c1(kappa_free_of(s), kunz_quotient(s, 1)).len() == s.m - 1,
        forall|j: int| 1 <= j <= s.m - 1 ==> #[trigger] kappa_c1(kappa_free_of(s), kunz_quotient(s, 1))[j - 1]
            == kunz_spec(s.apery_set@, s.m as int, 1, j),
{
    let m = s.m as int;
    let f = s.f as int;
    let kf = kappa_free_of(s);
    let q1 = kunz_quotient(s, 1);
    let c = kappa_c1(kf, q1);
    assert(m * (f + m) <= usize::MAX) by (nonlinear_arith) requires 4 * (m * (f + m)) <= usize::MAX, m >= 1, f >= 0;
    assert(f + m <= m * (f + m)) by (nonlinear_arith) requires m >= 1, f >= 0;
    assert(usize::MAX <= u64::MAX);
    crate::manipulators::lemma_apery_bounded(s);
    lemma_apery_zero(s);
    assert forall|k: int| 1 <= k < m implies s.apery_set@[k] == m * #[trigger] kunz_quotient(s, k) + k
        && 0 <= kunz_quotient(s, k) <= f + m by {
        lemma_apery_quotient(s, k);
    }
    assert forall|t: int| 0 <= t < kf.len() implies #[trigger] kf[t] as int == kunz_quotient(s, t + 2) by {
        assert(kunz_quotient(s, t + 2) <= f + m);
    }
    assert forall|j: int| 1 <= j <= m - 1 implies #[trigger] c[j - 1] == kunz_spec(s.apery_set@, m, 1, j) by {
        lemma_kunz_exact(s, 1, j);
        assert(1int % m == 1) by (nonlinear_arith) requires m >= 2;
        assert(j % m == j) by (nonlinear_arith) requires 0 <= j < m;
        let kj = kunz_quotient(s, j);
        let c1j = kunz_spec(s.apery_set@, m, 1, j);
        crate::inspect::lemma_kunz_bound(s.apery_set@, m, f, 1, j);
        if j <= m - 2 {
            assert((1 + j) % m == j + 1) by (nonlinear_arith) requires 0 <= j + 1 < m;
            let kn = kunz_quotient(s, j + 1);
            assert(m * c1j == m * (q1 + kj - kn)) by (nonlinear_arith)
                requires m * c1j == s.apery_set@[1] + s.apery_set@[j] - s.apery_set@[j + 1],
                    s.apery_set@[1] == m * q1 + 1,
                    s.apery_set@[j] == m * kj + j,
                    s.apery_set@[j + 1] == m * kn + j + 1;
            assert(c1j == q1 + kj - kn) by (nonlinear_arith) requires m * c1j == m * (q1 + kj - kn), m >= 1;
            if j == 1 {
                assert(kf[0] as int == kunz_quotient(s, 2));
            } else {
                assert(kf[j - 2] as int == kunz_quotient(s, j));
                assert(kf[j - 1] as int == kunz_quotient(s, j + 1));
            }
        } else {
            assert((1 + j) % m == 0) by (nonlinear_arith) requires j == m - 1, m >= 2;
            assert(m * c1j == m * (1 + q1 + kj)) by (nonlinear_arith)
                requires m * c1j == s.apery_set@[1] + s.apery_set@[j] - s.apery_set@[0],
                    s.apery_set@[0] == 0,
                    s.apery_set@[1] == m * q1 + 1,
                    s.apery_set@[j] == m * kj + j,
                    j == m - 1;
            assert(c1j == 1 + q1 + kj) by (nonlinear_arith) requires m * c1j == m * (1 + q1 + kj), m >= 1;
            assert(kf[m - 3] as int == kunz_quotient(s, m - 1));
        }
    }
}


/// Rebuilding the Apéry set from the first Kunz column gives it back: with
/// `w₁ = m·q₁ + 1` and `c₁[k − 1] = c(1, k)`, the recurrence of
/// [`apery_from_c1`](crate::cones::apery_from_c1) returns `w_k` for every
/// residue `k`, because `m·c(1, k) = w₁ + w_k − w_{k+1}`.
pub proof fn lemma_apery_from_c1_inverts(s: Semigroup, c1: Seq<i64>)
    requires
        s.wf(),
        s.m >= 2,
        c1.len() >= s.m - 2,
        forall|k: int| 0 <= k < s.m - 2 ==> #[trigger] c1[k] as int == kunz_spec(s.apery_set@, s.m as int, 1, k + 1),
    ensures
        forall|k: int| 0 <= k < s.m ==> #[trigger] crate::cones::apery_rec(s.m as int, kunz_quotient(s, 1), c1, k)
            == s.apery_set@[k],
{
    let m = s.m as int;
    let q1 = kunz_quotient(s, 1);
    lemma_apery_quotient(s, 1);
    lemma_apery_zero(s);
    assert forall|k: int| 0 <= k < m implies #[trigger] crate::cones::apery_rec(m, q1, c1, k) == s.apery_set@[k] by {
        lemma_apery_rec_step(s, c1, k);
    }
}

proof fn lemma_apery_rec_step(s: Semigroup, c1: Seq<i64>, k: int)
    requires
        s.wf(),
        s.m >= 2,
        c1.len() >= s.m - 2,
        forall|k: int| 0 <= k < s.m - 2 ==> #[trigger] c1[k] as int == kunz_spec(s.apery_set@, s.m as int, 1, k + 1),
        0 <= k < s.m,
    ensures
        crate::cones::apery_rec(s.m as int, kunz_quotient(s, 1), c1, k) == s.apery_set@[k],
    decreases k,
{
    let m = s.m as int;
    let q1 = kunz_quotient(s, 1);
    lemma_apery_quotient(s, 1);
    lemma_apery_zero(s);
    if k >= 2 {
        lemma_apery_rec_step(s, c1, k - 1);
        let j = k - 1;
        lemma_kunz_exact(s, 1, j);
        assert(1int % m == 1) by (nonlinear_arith) requires m >= 2;
        assert(j % m == j) by (nonlinear_arith) requires 0 <= j < m;
        assert((1 + j) % m == k) by (nonlinear_arith) requires 0 <= k < m, j == k - 1;
        assert(c1[k - 2] as int == kunz_spec(s.apery_set@, m, 1, j));
    }
}

} // verus!
