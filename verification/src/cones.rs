//! Input files for the lattice-point enumeration of Kunz-cone slices: for a
//! genus `g`, a multiplicity `m` and `q₁` (with `w₁ = m·q₁ + 1`), the text
//! of the Normaliz input whose lattice points are the first columns `c₁` of
//! the reduced Kunz matrices of the semigroups in that slice; the same
//! slices refined by the first class `k*` at which the Kunz quotient
//! `κ_k = (w_k − k)/m` is largest; the slices in
//! the coordinates `κ`; and the way back from a lattice point to its
//! semigroup.
use vstd::prelude::*;
use vstd::string::StringExecFns;
use crate::kunz_matrices::ind;
use crate::compute::{compute, compute_small, reduced};
use crate::generated::in_gen;
use crate::manipulators::without;
use crate::matrix::DenseMatrix;
use crate::semigroup::{small_enough, Semigroup};
use crate::strata::dec;
use crate::text::{lines, push_lines, push_spaced, push_u64, rows_of_vecs, spaced};

verus! {

/// How the slices are processed: spread over worker threads, or one after
/// the other.
#[derive(Debug, Clone, Copy, PartialEq, Eq, Structural)]
pub enum ExecMode {
    /// Distribute the slices over a thread pool.
    Parallel,
    /// Process every slice in order, on the calling thread.
    Sequential,
}

/// The command-line word that selects [`ExecMode::Sequential`].
pub const SEQ_FLAG: &'static str = "seq";

/// A row of integers as one line of an input file: the numbers in decimal,
/// separated by single spaces.
pub fn join_row(row: &[i64]) -> (s: String)
    ensures
        s@ == spaced(row@),
{
    let mut s = String::new();
    push_spaced(&mut s, row);
    s
}

/// The relative path of the bundled Normaliz 3.11.1 executable:
/// `normaliz/normaliz-3.11.1-Linux/normaliz`, or on Windows
/// `normaliz\normaliz-3.11.1-Windows\normaliz.exe`.
pub fn bundled_normaliz_path(windows: bool) -> (p: String)
    ensures
        p@ == if windows {
            "normaliz\\normaliz-3.11.1-Windows\\normaliz.exe"@
        } else {
            "normaliz/normaliz-3.11.1-Linux/normaliz"@
        },
{
    if windows {
        String::from_str("normaliz\\normaliz-3.11.1-Windows\\normaliz.exe")
    } else {
        String::from_str("normaliz/normaliz-3.11.1-Linux/normaliz")
    }
}

/// A section header line: `name k`.
pub open spec fn header_text(name: Seq<char>, k: int) -> Seq<char> {
    name + seq![' '] + dec(k as nat) + seq!['\n']
}

/// A section: its header with the number of rows, then the rows.
pub open spec fn section_text(name: Seq<char>, rows: Seq<Seq<i64>>) -> Seq<char> {
    header_text(name, rows.len() as int) + lines(rows)
}

/// Appends a section: `name`, the number of rows, then one line per row.
pub fn push_section(out: &mut String, name: &str, rows: &Vec<Vec<i64>>)
    ensures
        final(out)@ == old(out)@ + section_text(name@, rows_of_vecs(rows@)),
{
    out.append(name);
    out.append(" ");
    push_u64(out, rows.len() as u64);
    out.append("\n");
    push_lines(out, rows);
    proof {
        reveal_strlit(" ");
        reveal_strlit("\n");
        assert(final(out)@ =~= old(out)@ + section_text(name@, rows_of_vecs(rows@)));
    }
}

/// The rows of a matrix.
pub open spec fn matrix_rows(p: DenseMatrix<i64>) -> Seq<Seq<i64>> {
    Seq::new(p.rows_spec(), |r: int| Seq::new(p.cols_spec(), |c: int| p.at(r, c)))
}

/// Copies the rows of a matrix into vectors.
pub(crate) fn rows_from_matrix(p: &DenseMatrix<i64>) -> (rows: Vec<Vec<i64>>)
    requires
        p.wf(),
    ensures
        rows_of_vecs(rows@) == matrix_rows(*p),
{
    let nr = p.nrows();
    let nc = p.ncols();
    let mut rows: Vec<Vec<i64>> = Vec::new();
    let mut r: usize = 0;
    while r < nr
        invariant
            p.wf(),
            nr == p.rows_spec(),
            nc == p.cols_spec(),
            r <= nr,
            rows@.len() == r,
            forall|i: int| 0 <= i < r ==> #[trigger] rows@[i]@ == matrix_rows(*p)[i],
        decreases nr - r,
    {
        let mut row: Vec<i64> = Vec::new();
        let mut c: usize = 0;
        while c < nc
            invariant
                p.wf(),
                nr == p.rows_spec(),
                nc == p.cols_spec(),
                r < nr,
                c <= nc,
                row@.len() == c,
                forall|j: int| 0 <= j < c ==> #[trigger] row@[j] == p.at(r as int, j),
            decreases nc - c,
        {
            row.push(p.get(r, c));
            c = c + 1;
        }
        proof {
            assert(row@ =~= matrix_rows(*p)[r as int]);
        }
        rows.push(row);
        r = r + 1;
    }
    proof {
        assert(rows_of_vecs(rows@) =~= matrix_rows(*p));
    }
    rows
}

/// `m·g + m(m − 1)/2`: the sum of the Apéry elements of a semigroup of
/// genus `g` and multiplicity `m` (Selmer's formula).
pub open spec fn selmer(m: int, g: int) -> int {
    m * g + m * (m - 1) / 2
}

/// `(m − 3)·m + (m − 2)(m − 1)/2 − 1` for `m ≥ 3`, else 0: the offset in
/// the upper bound on the last coordinate `c_{m−1,1}`.
pub open spec fn s_min(m: int) -> int {
    if m >= 3 {
        (m - 3) * m + (m - 2) * (m - 1) / 2 - 1
    } else {
        0
    }
}

/// The numbers of a slice are small enough for the arithmetic of its input
/// file, in `usize` and in `i64`, and the upper bound is well defined.
pub open spec fn slice_fits(g: int, m: int, q1: int) -> bool {
    let t = g + m + q1;
    &&& 2 <= m
    &&& 0 <= g
    &&& 0 <= q1
    &&& s_min(m) <= selmer(m, g)
    &&& 4 * (t * t) <= usize::MAX
    &&& 4 * (t * t) <= i64::MAX
}

/// `Σ x_a = w₁`, as the row `(1, …, 1, −(m·q₁ + 1))`.
pub open spec fn eq_w1(m: int, q1: int) -> Seq<i64> {
    Seq::new(m as nat, |b: int| if b < m - 1 { 1i64 } else { (-(m * q1 + 1)) as i64 })
}

/// `(1ᵀU(m))·x = m·g + m(m − 1)/2`, as the row of the column sums of
/// `U(m)`, `n(n + 1)/2 − m(n − 1 − b)` with `n = m − 1`, then `−selmer`.
pub open spec fn eq_genus(m: int, g: int) -> Seq<i64> {
    let n = m - 1;
    Seq::new(m as nat, |b: int| if b < n { (n * (n + 1) / 2 - m * (n - 1 - b)) as i64 } else { (-selmer(m, g)) as i64 })
}

/// The multiplicity row for `a`: `w_{a+1} ≥ m + a + 1`, as the row of
/// `U(m)[a]` followed by `−(m + a + 1)`.
pub open spec fn mult_row(m: int, a: int) -> Seq<i64> {
    let n = m - 1;
    Seq::new(m as nat, |b: int| if b < n { (if b < a { a + 1 - m } else { a + 1 }) as i64 } else { (-(m + a + 1)) as i64 })
}

/// The multiplicity rows for `a = 1, …, m − 2`.
pub open spec fn mult_rows(m: int) -> Seq<Seq<i64>> {
    Seq::new((m - 2) as nat, |t: int| mult_row(m, t + 1))
}

/// The upper bound `c_{m−1,1} ≤ (selmer − s_min)/m`, as the row
/// `(0, …, 0, −1, (selmer − s_min)/m)`.
pub open spec fn upper_row(m: int, g: int) -> Seq<i64> {
    let n = m - 1;
    Seq::new(m as nat, |b: int| if b < n { if b == n - 1 { -1i64 } else { 0i64 } } else { ((selmer(m, g) - s_min(m)) / m) as i64 })
}

/// The Normaliz input for the slice `(g, m, q₁)` in the coordinates
/// `x = c₁`: ambient dimension `m − 1`; the rows of the pair-relations
/// matrix as homogeneous inequalities; the two equations; the multiplicity
/// rows and the upper bound as inhomogeneous inequalities.
pub open spec fn kunz_cone_text(g: int, m: int, q1: int, pairs: Seq<Seq<i64>>) -> Seq<char> {
    header_text("amb_space"@, m - 1)
        + section_text("inequalities"@, pairs)
        + section_text("inhom_equations"@, seq![eq_w1(m, q1), eq_genus(m, g)])
        + section_text("inhom_inequalities"@, mult_rows(m).push(upper_row(m, g)))
}

/// The arithmetic of a slice stays in range.
proof fn lemma_slice_bounds(g: int, m: int, q1: int)
    requires
        slice_fits(g, m, q1),
    ensures
        m * g <= usize::MAX,
        m * (m - 1) <= usize::MAX,
        m * g + m * (m - 1) / 2 <= usize::MAX,
        m * g + m * (m - 1) / 2 <= i64::MAX,
        selmer(m, g) >= 0,
        m * q1 <= usize::MAX,
        m * q1 + 1 <= usize::MAX,
        m * q1 + 1 <= i64::MAX,
        2 * m + 2 <= usize::MAX,
        2 * m + 2 <= i64::MAX,
        (m - 1) * m <= i64::MAX,
        m * (m - 1) <= i64::MAX,
        g + m + q1 <= i64::MAX,
        g + m + q1 <= usize::MAX,
        m >= 3 ==> (m - 3) * m <= usize::MAX,
        m >= 3 ==> (m - 2) * (m - 1) <= usize::MAX,
        m >= 3 ==> (m - 3) * m + (m - 2) * (m - 1) / 2 <= usize::MAX,
        m >= 3 ==> (m - 2) * (m - 1) / 2 >= 1,
        4 * (g + m + q1) <= i64::MAX,
        4 * (g + m + q1) <= usize::MAX,
{
    let t = g + m + q1;
    assert(4 * t <= 4 * (t * t)) by (nonlinear_arith) requires t >= 2;
    if m >= 3 {
        assert((m - 3) * m <= m * (m - 1)) by (nonlinear_arith) requires m >= 3;
        assert((m - 2) * (m - 1) <= m * (m - 1)) by (nonlinear_arith) requires m >= 3;
        assert((m - 2) * (m - 1) >= 2) by (nonlinear_arith) requires m >= 3;
        assert((m - 3) * m >= 0) by (nonlinear_arith) requires m >= 3;
    }
    assert(t <= t * t) by (nonlinear_arith) requires t >= 2;
    assert(m * g <= t * t) by (nonlinear_arith) requires t == g + m + q1, g >= 0, m >= 2, q1 >= 0;
    assert(m * (m - 1) <= t * t) by (nonlinear_arith) requires t == g + m + q1, g >= 0, m >= 2, q1 >= 0;
    assert(m * q1 <= t * t) by (nonlinear_arith) requires t == g + m + q1, g >= 0, m >= 2, q1 >= 0;
    assert(m * (m - 1) / 2 <= m * (m - 1)) by (nonlinear_arith) requires m >= 2;
    assert(m * (m - 1) >= 0) by (nonlinear_arith) requires m >= 2;
    assert(m * g >= 0) by (nonlinear_arith) requires m >= 2, g >= 0;
    assert((m - 1) * m == m * (m - 1)) by (nonlinear_arith);
}

/// The two equations of a slice.
fn equation_rows(g: usize, m: usize, q1: usize) -> (rows: Vec<Vec<i64>>)
    requires
        slice_fits(g as int, m as int, q1 as int),
    ensures
        rows_of_vecs(rows@) == seq![eq_w1(m as int, q1 as int), eq_genus(m as int, g as int)],
{
    let ghost t: int = g + m + q1;
    proof {
        lemma_slice_bounds(g as int, m as int, q1 as int);
    }
    let n: usize = m - 1;
    let w1: usize = m * q1 + 1;
    let mut eq1: Vec<i64> = Vec::new();
    let mut b: usize = 0;
    while b < n
        invariant
            n == m - 1,
            b <= n,
            eq1@.len() == b,
            forall|j: int| 0 <= j < b ==> #[trigger] eq1@[j] == 1i64,
        decreases n - b,
    {
        eq1.push(1);
        b = b + 1;
    }
    eq1.push(-(w1 as i64));
    let sel: usize = m * g + m * (m - 1) / 2;
    let ni = n as i64;
    let mi = m as i64;
    proof {
        assert(n * (n + 1) <= 4 * (t * t)) by (nonlinear_arith) requires t == g + m + q1, n == m - 1, g >= 0, m >= 2, q1 >= 0;
        assert(m * n <= 4 * (t * t)) by (nonlinear_arith) requires t == g + m + q1, n == m - 1, g >= 0, m >= 2, q1 >= 0;
    }
    let mut eq2: Vec<i64> = Vec::new();
    let mut b: usize = 0;
    while b < n
        invariant
            n == m - 1,
            ni == n,
            mi == m,
            b <= n,
            n * (n + 1) <= i64::MAX,
            m * n <= i64::MAX,
            eq2@.len() == b,
            forall|j: int| 0 <= j < b ==> #[trigger] eq2@[j] == (n * (n + 1) / 2 - m * (n - 1 - j)) as i64,
        decreases n - b,
    {
        let bi = b as i64;
        proof {
            assert(0 <= mi * (ni - 1 - bi) <= m * n) by (nonlinear_arith) requires mi == m, ni == n, 0 <= bi < ni, m >= 0;
            assert(ni * (ni + 1) / 2 <= i64::MAX) by (nonlinear_arith) requires ni * (ni + 1) <= i64::MAX, ni >= 0;
        }
        eq2.push(ni * (ni + 1) / 2 - mi * (ni - 1 - bi));
        b = b + 1;
    }
    eq2.push(-(sel as i64));
    let mut rows: Vec<Vec<i64>> = Vec::new();
    rows.push(eq1);
    rows.push(eq2);
    proof {
        assert(rows@[0]@ =~= eq_w1(m as int, q1 as int));
        assert(rows@[1]@ =~= eq_genus(m as int, g as int));
        assert(rows_of_vecs(rows@) =~= seq![eq_w1(m as int, q1 as int), eq_genus(m as int, g as int)]);
    }
    rows
}

/// The multiplicity rows followed by the upper bound.
fn bound_rows(g: usize, m: usize, q1: usize) -> (rows: Vec<Vec<i64>>)
    requires
        slice_fits(g as int, m as int, q1 as int),
    ensures
        rows_of_vecs(rows@) == mult_rows(m as int).push(upper_row(m as int, g as int)),
{
    let ghost t: int = g + m + q1;
    let n: usize = m - 1;
    let mi = m as i64;
    proof {
        lemma_slice_bounds(g as int, m as int, q1 as int);
    }
    let mut rows: Vec<Vec<i64>> = Vec::new();
    let mut a: usize = 1;
    while a < n
        invariant
            n == m - 1,
            mi == m,
            m >= 2,
            1 <= a <= n,
            2 * m + 2 <= i64::MAX,
            2 * m + 2 <= usize::MAX,
            rows@.len() == a - 1,
            forall|i: int| 0 <= i < a - 1 ==> #[trigger] rows@[i]@ == mult_row(m as int, i + 1),
        decreases n - a,
    {
        let ki = (a + 1) as i64;
        let min_w = (m + a + 1) as i64;
        let mut row: Vec<i64> = Vec::new();
        let mut b: usize = 0;
        while b < n
            invariant
                n == m - 1,
                mi == m,
                1 <= a < n,
                ki == a + 1,
                2 * m + 2 <= i64::MAX,
                b <= n,
                row@.len() == b,
                forall|j: int| 0 <= j < b ==> #[trigger] row@[j] == (if j < a { a + 1 - m } else { a + 1 }) as i64,
            decreases n - b,
        {
            if b < a {
                row.push(ki - mi);
            } else {
                row.push(ki);
            }
            b = b + 1;
        }
        row.push(-min_w);
        proof {
            assert(row@ =~= mult_row(m as int, a as int));
        }
        rows.push(row);
        a = a + 1;
    }
    let sel: usize = m * g + m * (m - 1) / 2;
    let smin: usize = if m >= 3 { (m - 3) * m + (m - 2) * (m - 1) / 2 - 1 } else { 0 };
    proof {
        assert(sel == selmer(m as int, g as int));
        assert(smin == s_min(m as int));
    }
    let bound = ((sel - smin) / m) as i64;
    let mut up: Vec<i64> = Vec::new();
    let mut b: usize = 0;
    while b < n
        invariant
            n == m - 1,
            b <= n,
            up@.len() == b,
            forall|j: int| 0 <= j < b ==> #[trigger] up@[j] == if j == n - 1 { -1i64 } else { 0i64 },
        decreases n - b,
    {
        if b == n - 1 {
            up.push(-1);
        } else {
            up.push(0);
        }
        b = b + 1;
    }
    up.push(bound);
    proof {
        assert(up@ =~= upper_row(m as int, g as int));
    }
    rows.push(up);
    proof {
        assert(rows_of_vecs(rows@) =~= mult_rows(m as int).push(upper_row(m as int, g as int)));
    }
    rows
}

/// The Normaliz input for the slice `(g, m, q₁)`, given the pair-relations
/// matrix of `m`.
pub fn kunz_cone_input(g: usize, m: usize, q1: usize, pairs: &DenseMatrix<i64>) -> (s: String)
    requires
        slice_fits(g as int, m as int, q1 as int),
        pairs.wf(),
    ensures
        s@ == kunz_cone_text(g as int, m as int, q1 as int, matrix_rows(*pairs)),
{
    let mut s = String::new();
    s.append("amb_space ");
    push_u64(&mut s, (m - 1) as u64);
    s.append("\n");
    let pair_rows = rows_from_matrix(pairs);
    push_section(&mut s, "inequalities", &pair_rows);
    let eqs = equation_rows(g, m, q1);
    push_section(&mut s, "inhom_equations", &eqs);
    let bounds = bound_rows(g, m, q1);
    push_section(&mut s, "inhom_inequalities", &bounds);
    proof {
        reveal_strlit("amb_space ");
        reveal_strlit("amb_space");
        reveal_strlit("\n");
        assert("amb_space "@ =~= "amb_space"@ + seq![' ']);
        assert(s@ =~= kunz_cone_text(g as int, m as int, q1 as int, matrix_rows(*pairs)));
    }
    s
}

/// The strict row for `k < k*`: `κ_{k*} ≥ κ_k + 1`, as `−1` at the
/// coordinates `a` with `k ≤ a + 1` and `a < k* − 1`, then `(k* − k)·q₁ − 1`.
pub open spec fn strict_row(m: int, q1: int, kstar: int, k: int) -> Seq<i64> {
    Seq::new(m as nat, |a: int| if a < m - 1 { (-ind(a + 1 >= k && a < kstar - 1)) as i64 } else { ((kstar - k) * q1 - 1) as i64 })
}

/// The non-strict row for `k > k*`: `κ_{k*} ≥ κ_k`, as `1` at the
/// coordinates `a` with `k* ≤ a + 1` and `a < k − 1`, then `−(k − k*)·q₁`.
pub open spec fn weak_row(m: int, q1: int, kstar: int, k: int) -> Seq<i64> {
    Seq::new(m as nat, |a: int| if a < m - 1 { ind(a + 1 >= kstar && a < k - 1) as i64 } else { (-((k - kstar) * q1)) as i64 })
}

/// The strict rows for `k = 1, …, k* − 1`.
pub open spec fn strict_rows(m: int, q1: int, kstar: int) -> Seq<Seq<i64>> {
    Seq::new((kstar - 1) as nat, |t: int| strict_row(m, q1, kstar, t + 1))
}

/// The non-strict rows for `k = k* + 1, …, m − 1`.
pub open spec fn weak_rows(m: int, q1: int, kstar: int) -> Seq<Seq<i64>> {
    Seq::new((m - 1 - kstar) as nat, |t: int| weak_row(m, q1, kstar, kstar + 1 + t))
}

/// The slice `(g, m, q₁)` restricted to the points whose largest Kunz
/// quotient `κ_k` first occurs at `k = k*`: the input of
/// [`kunz_cone_text`] with the strict and non-strict rows of `k*` added to
/// the inhomogeneous inequalities.
pub open spec fn kstar_cone_text(g: int, m: int, q1: int, kstar: int, pairs: Seq<Seq<i64>>) -> Seq<char> {
    header_text("amb_space"@, m - 1)
        + section_text("inequalities"@, pairs)
        + section_text("inhom_equations"@, seq![eq_w1(m, q1), eq_genus(m, g)])
        + section_text(
            "inhom_inequalities"@,
            mult_rows(m).push(upper_row(m, g)) + strict_rows(m, q1, kstar) + weak_rows(m, q1, kstar),
        )
}

/// Appends the strict and the non-strict rows of `k*`.
fn push_kstar_rows(rows: &mut Vec<Vec<i64>>, g: usize, m: usize, q1: usize, kstar: usize)
    requires
        slice_fits(g as int, m as int, q1 as int),
        1 <= kstar < m,
    ensures
        rows_of_vecs(final(rows)@) == rows_of_vecs(old(rows)@) + strict_rows(m as int, q1 as int, kstar as int)
            + weak_rows(m as int, q1 as int, kstar as int),
{
    proof {
        lemma_slice_bounds(g as int, m as int, q1 as int);
    }
    let n: usize = m - 1;
    let ghost start = rows_of_vecs(rows@);
    let mut k: usize = 1;
    while k < kstar
        invariant
            slice_fits(g as int, m as int, q1 as int),
            n == m - 1,
            1 <= k <= kstar < m,
            m * q1 <= usize::MAX,
            m * q1 + 1 <= i64::MAX,
            rows_of_vecs(rows@) == start + strict_rows(m as int, q1 as int, kstar as int).subrange(0, k - 1),
        decreases kstar - k,
    {
        proof {
            assert((kstar - k) * q1 <= m * q1) by (nonlinear_arith) requires kstar - k <= m, q1 >= 0, kstar >= k;
            assert((kstar - k) * q1 >= 0) by (nonlinear_arith) requires q1 >= 0, kstar >= k;
        }
        let constant = ((kstar - k) * q1) as i64 - 1;
        let mut row: Vec<i64> = Vec::new();
        let mut a: usize = 0;
        while a < n
            invariant
                n == m - 1,
                1 <= k < kstar < m,
                a <= n,
                row@.len() == a,
                forall|j: int| 0 <= j < a ==> #[trigger] row@[j] == (-ind(j + 1 >= k && j < kstar - 1)) as i64,
            decreases n - a,
        {
            if a + 1 >= k && a < kstar - 1 {
                row.push(-1);
            } else {
                row.push(0);
            }
            a = a + 1;
        }
        row.push(constant);
        proof {
            assert(row@ =~= strict_row(m as int, q1 as int, kstar as int, k as int));
        }
        let ghost before = rows_of_vecs(rows@);
        rows.push(row);
        proof {
            assert(rows_of_vecs(rows@) =~= before.push(strict_row(m as int, q1 as int, kstar as int, k as int)));
            assert(strict_rows(m as int, q1 as int, kstar as int).subrange(0, k as int)
                =~= strict_rows(m as int, q1 as int, kstar as int).subrange(0, k - 1).push(strict_row(m as int, q1 as int, kstar as int, k as int)));
        }
        k = k + 1;
    }
    proof {
        assert(strict_rows(m as int, q1 as int, kstar as int).subrange(0, kstar - 1) =~= strict_rows(m as int, q1 as int, kstar as int));
    }
    let ghost mid = rows_of_vecs(rows@);
    let mut k: usize = kstar + 1;
    while k < m
        invariant
            slice_fits(g as int, m as int, q1 as int),
            n == m - 1,
            1 <= kstar < k <= m,
            m * q1 <= usize::MAX,
            m * q1 + 1 <= i64::MAX,
            rows_of_vecs(rows@) == mid + weak_rows(m as int, q1 as int, kstar as int).subrange(0, k - kstar - 1),
        decreases m - k,
    {
        proof {
            assert((k - kstar) * q1 <= m * q1) by (nonlinear_arith) requires k - kstar <= m, q1 >= 0, k >= kstar;
            assert((k - kstar) * q1 >= 0) by (nonlinear_arith) requires q1 >= 0, k >= kstar;
        }
        let constant = -(((k - kstar) * q1) as i64);
        let mut row: Vec<i64> = Vec::new();
        let mut a: usize = 0;
        while a < n
            invariant
                n == m - 1,
                1 <= kstar < k < m,
                a <= n,
                row@.len() == a,
                forall|j: int| 0 <= j < a ==> #[trigger] row@[j] == ind(j + 1 >= kstar && j < k - 1) as i64,
            decreases n - a,
        {
            if a + 1 >= kstar && a < k - 1 {
                row.push(1);
            } else {
                row.push(0);
            }
            a = a + 1;
        }
        row.push(constant);
        proof {
            assert(row@ =~= weak_row(m as int, q1 as int, kstar as int, k as int));
        }
        let ghost before = rows_of_vecs(rows@);
        rows.push(row);
        proof {
            assert(rows_of_vecs(rows@) =~= before.push(weak_row(m as int, q1 as int, kstar as int, k as int)));
            assert(weak_rows(m as int, q1 as int, kstar as int).subrange(0, k - kstar)
                =~= weak_rows(m as int, q1 as int, kstar as int).subrange(0, k - kstar - 1).push(weak_row(m as int, q1 as int, kstar as int, k as int)));
        }
        k = k + 1;
    }
    proof {
        assert(weak_rows(m as int, q1 as int, kstar as int).subrange(0, m - kstar - 1) =~= weak_rows(m as int, q1 as int, kstar as int));
        assert(rows_of_vecs(rows@) =~= start + strict_rows(m as int, q1 as int, kstar as int) + weak_rows(m as int, q1 as int, kstar as int));
    }
}

/// The Normaliz input for the slice `(g, m, q₁)` restricted to the points
/// whose largest Kunz quotient first occurs at `k*`, given the
/// pair-relations matrix of `m`.
pub fn kstar_cone_input(g: usize, m: usize, q1: usize, kstar: usize, pairs: &DenseMatrix<i64>) -> (s: String)
    requires
        slice_fits(g as int, m as int, q1 as int),
        1 <= kstar < m,
        pairs.wf(),
    ensures
        s@ == kstar_cone_text(g as int, m as int, q1 as int, kstar as int, matrix_rows(*pairs)),
{
    let mut s = String::new();
    s.append("amb_space ");
    push_u64(&mut s, (m - 1) as u64);
    s.append("\n");
    let pair_rows = rows_from_matrix(pairs);
    push_section(&mut s, "inequalities", &pair_rows);
    let eqs = equation_rows(g, m, q1);
    push_section(&mut s, "inhom_equations", &eqs);
    let mut bounds = bound_rows(g, m, q1);
    push_kstar_rows(&mut bounds, g, m, q1, kstar);
    push_section(&mut s, "inhom_inequalities", &bounds);
    proof {
        reveal_strlit("amb_space ");
        reveal_strlit("amb_space");
        reveal_strlit("\n");
        assert("amb_space "@ =~= "amb_space"@ + seq![' ']);
        assert(s@ =~= kstar_cone_text(g as int, m as int, q1 as int, kstar as int, matrix_rows(*pairs)));
    }
    s
}

/// The Kunz condition `c(a, b) ≥ 0` in the coordinates `κ₂, …, κ_{m−1}`
/// (with `κ₁ = q₁` and `κ₀ = 0` substituted): `κ_a + κ_b − κ_r + [a + b > m] ≥ 0`
/// with `r = (a + b) mod m`, as the coefficients of `κ₂, …, κ_{m−1}` then
/// the constant.
pub open spec fn kappa_row(m: int, q1: int, a: int, b: int) -> Seq<i64> {
    let r = (a + b) % m;
    Seq::new((m - 1) as nat, |k: int| if k < m - 2 {
        (ind(a == k + 2) + ind(b == k + 2) - ind(r == k + 2)) as i64
    } else {
        ((if a == 1 { q1 } else { 0 }) + (if b == 1 { q1 } else { 0 }) - (if r == 1 { q1 } else { 0 }) + ind(a + b > m)) as i64
    })
}

/// The rows of the pairs `(a, b)`, `a ≤ b < hi`, for one `a`, leaving out
/// the pairs with `a + b ≡ 0 (mod m)`.
pub open spec fn kappa_block(m: int, q1: int, a: int, hi: int) -> Seq<Seq<i64>>
    decreases hi - a,
{
    if hi <= a {
        Seq::empty()
    } else {
        let prev = kappa_block(m, q1, a, hi - 1);
        if (a + hi - 1) % m == 0 { prev } else { prev.push(kappa_row(m, q1, a, hi - 1)) }
    }
}

/// The rows of all pairs `1 ≤ a ≤ b ≤ m − 1` with `a < hi`, in order.
pub open spec fn kappa_pairs(m: int, q1: int, hi: int) -> Seq<Seq<i64>>
    decreases hi,
{
    if hi <= 1 {
        Seq::empty()
    } else {
        kappa_pairs(m, q1, hi - 1) + kappa_block(m, q1, hi - 1, m)
    }
}

/// `κ_k ≥ 1`: `1` at the coordinate of `κ_k`, then `−1`.
pub open spec fn kappa_mult_row(m: int, k: int) -> Seq<i64> {
    Seq::new((m - 1) as nat, |j: int| if j < m - 2 { if j == k - 2 { 1i64 } else { 0i64 } } else { -1i64 })
}

/// The rows `κ_k ≥ 1` for `k = 2, …, m − 1`.
pub open spec fn kappa_mult_rows(m: int) -> Seq<Seq<i64>> {
    Seq::new((m - 2) as nat, |t: int| kappa_mult_row(m, t + 2))
}

/// `Σ κ_k = g − q₁`.
pub open spec fn kappa_genus_row(m: int, g: int, q1: int) -> Seq<i64> {
    Seq::new((m - 1) as nat, |j: int| if j < m - 2 { 1i64 } else { (-(g - q1)) as i64 })
}

/// The Normaliz input for the slice `(g, m, q₁)` in the coordinates
/// `κ₂, …, κ_{m−1}`: the Kunz conditions of all pairs and `κ_k ≥ 1` as
/// inhomogeneous inequalities, and the genus as the one equation.
pub open spec fn kappa_cone_text(g: int, m: int, q1: int) -> Seq<char> {
    header_text("amb_space"@, m - 2)
        + section_text("inhom_inequalities"@, kappa_pairs(m, q1, m) + kappa_mult_rows(m))
        + section_text("inhom_equations"@, seq![kappa_genus_row(m, g, q1)])
}

/// The row of the pair `(a, b)`.
fn kappa_row_exec(m: usize, q1: usize, a: usize, b: usize) -> (row: Vec<i64>)
    requires
        2 <= m,
        1 <= a <= b < m,
        3 * q1 + 1 <= i64::MAX,
        2 * m <= usize::MAX,
    ensures
        row@ == kappa_row(m as int, q1 as int, a as int, b as int),
{
    let nf: usize = m - 2;
    let r: usize = (a + b) % m;
    let q = q1 as i64;
    let mut row: Vec<i64> = Vec::new();
    let mut k: usize = 0;
    while k < nf
        invariant
            nf == m - 2,
            r == (a + b) % (m as int),
            k <= nf,
            row@.len() == k,
            forall|j: int| 0 <= j < k ==> #[trigger] row@[j] == (ind(a == j + 2) + ind(b == j + 2) - ind(r == j + 2)) as i64,
        decreases nf - k,
    {
        let mut v: i64 = 0;
        if a == k + 2 {
            v = v + 1;
        }
        if b == k + 2 {
            v = v + 1;
        }
        if r == k + 2 {
            v = v - 1;
        }
        row.push(v);
        k = k + 1;
    }
    let mut c: i64 = 0;
    if a == 1 {
        c = c + q;
    }
    if b == 1 {
        c = c + q;
    }
    if r == 1 {
        c = c - q;
    }
    if a + b > m {
        c = c + 1;
    }
    proof {
        let spec_c = (if a == 1 { q1 as int } else { 0 }) + (if b == 1 { q1 as int } else { 0 }) - (if r == 1 { q1 as int } else { 0 }) + ind(a + b > m);
        assert(c == spec_c);
        assert(r == (a + b) % (m as int));
    }
    row.push(c);
    proof {
        assert(row@ =~= kappa_row(m as int, q1 as int, a as int, b as int));
    }
    row
}

/// The Normaliz input for the slice `(g, m, q₁)` in the coordinates `κ`.
pub fn kappa_cone_input(g: usize, m: usize, q1: usize) -> (s: String)
    requires
        slice_fits(g as int, m as int, q1 as int),
        q1 <= g,
    ensures
        s@ == kappa_cone_text(g as int, m as int, q1 as int),
{
    proof {
        lemma_slice_bounds(g as int, m as int, q1 as int);
    }
    let nf: usize = m - 2;
    let mut rows: Vec<Vec<i64>> = Vec::new();
    let mut a: usize = 1;
    while a < m
        invariant
            slice_fits(g as int, m as int, q1 as int),
            4 * (g + m + q1) <= i64::MAX,
            2 * m + 2 <= usize::MAX,
            1 <= a <= m,
            rows_of_vecs(rows@) == kappa_pairs(m as int, q1 as int, a as int),
        decreases m - a,
    {
        let ghost before = rows_of_vecs(rows@);
        let mut b: usize = a;
        proof {
            assert(kappa_block(m as int, q1 as int, a as int, a as int) == Seq::<Seq<i64>>::empty());
            assert(rows_of_vecs(rows@) =~= before + kappa_block(m as int, q1 as int, a as int, b as int));
        }
        while b < m
            invariant
                slice_fits(g as int, m as int, q1 as int),
                4 * (g + m + q1) <= i64::MAX,
                2 * m + 2 <= usize::MAX,
                1 <= a <= b <= m,
                rows_of_vecs(rows@) == before + kappa_block(m as int, q1 as int, a as int, b as int),
            decreases m - b,
        {
            if (a + b) % m != 0 {
                let row = kappa_row_exec(m, q1, a, b);
                let ghost prev = rows_of_vecs(rows@);
                rows.push(row);
                proof {
                    assert(rows_of_vecs(rows@) =~= prev.push(kappa_row(m as int, q1 as int, a as int, b as int)));
                    assert(kappa_block(m as int, q1 as int, a as int, b + 1)
                        == kappa_block(m as int, q1 as int, a as int, b as int).push(kappa_row(m as int, q1 as int, a as int, b as int)));
                    assert(rows_of_vecs(rows@) =~= before + kappa_block(m as int, q1 as int, a as int, b + 1));
                }
            }
            b = b + 1;
        }
        a = a + 1;
    }
    let ghost pairs_part = rows_of_vecs(rows@);
    let mut k: usize = 2;
    while k < m
        invariant
            nf == m - 2,
            2 <= k <= m,
            rows_of_vecs(rows@) == pairs_part + kappa_mult_rows(m as int).subrange(0, k - 2),
        decreases m - k,
    {
        let mut row: Vec<i64> = Vec::new();
        let mut j: usize = 0;
        while j < nf
            invariant
                nf == m - 2,
                2 <= k < m,
                j <= nf,
                row@.len() == j,
                forall|i: int| 0 <= i < j ==> #[trigger] row@[i] == if i == k - 2 { 1i64 } else { 0i64 },
            decreases nf - j,
        {
            if j == k - 2 {
                row.push(1);
            } else {
                row.push(0);
            }
            j = j + 1;
        }
        row.push(-1);
        proof {
            assert(row@ =~= kappa_mult_row(m as int, k as int));
        }
        let ghost prev = rows_of_vecs(rows@);
        rows.push(row);
        proof {
            assert(rows_of_vecs(rows@) =~= prev.push(kappa_mult_row(m as int, k as int)));
            assert(kappa_mult_rows(m as int).subrange(0, k - 1)
                =~= kappa_mult_rows(m as int).subrange(0, k - 2).push(kappa_mult_row(m as int, k as int)));
        }
        k = k + 1;
    }
    proof {
        assert(kappa_mult_rows(m as int).subrange(0, m - 2) =~= kappa_mult_rows(m as int));
    }
    let mut eq: Vec<i64> = Vec::new();
    let mut j: usize = 0;
    while j < nf
        invariant
            nf == m - 2,
            j <= nf,
            eq@.len() == j,
            forall|i: int| 0 <= i < j ==> #[trigger] eq@[i] == 1i64,
        decreases nf - j,
    {
        eq.push(1);
        j = j + 1;
    }
    eq.push(-((g - q1) as i64));
    proof {
        assert(eq@ =~= kappa_genus_row(m as int, g as int, q1 as int));
    }
    let mut eqs: Vec<Vec<i64>> = Vec::new();
    eqs.push(eq);
    proof {
        assert(rows_of_vecs(eqs@) =~= seq![kappa_genus_row(m as int, g as int, q1 as int)]);
    }
    let mut s = String::new();
    s.append("amb_space ");
    push_u64(&mut s, nf as u64);
    s.append("\n");
    push_section(&mut s, "inhom_inequalities", &rows);
    push_section(&mut s, "inhom_equations", &eqs);
    proof {
        reveal_strlit("amb_space ");
        reveal_strlit("amb_space");
        reveal_strlit("\n");
        assert("amb_space "@ =~= "amb_space"@ + seq![' ']);
        assert(s@ =~= kappa_cone_text(g as int, m as int, q1 as int));
    }
    s
}

/// The point `c₁` of a point `(κ₂, …, κ_{m−1})`, with `κ₁ = q₁`:
/// `c_{1,1} = 2q₁ − κ₂`, `c_{1,j} = q₁ + κ_j − κ_{j+1}` for `2 ≤ j ≤ m − 2`,
/// and `c_{1,m−1} = 1 + q₁ + κ_{m−1}`; with no free coordinate, `(2q₁)`.
pub open spec fn kappa_c1(kf: Seq<i64>, q1: int) -> Seq<i64> {
    let nf = kf.len() as int;
    let len = if nf > 0 { nf + 1 } else { 1 };
    Seq::new(len as nat, |i: int|
        if i == 0 {
            (2 * q1 - (if nf > 0 { kf[0] as int } else { 0 })) as i64
        } else if i < nf {
            (q1 + kf[i - 1] - kf[i]) as i64
        } else {
            (1 + q1 + kf[nf - 1]) as i64
        })
}

/// Coordinates small enough for the conversion to stay in `i64`.
pub open spec fn kappa_fits(kf: Seq<i64>, q1: int) -> bool {
    &&& 0 <= q1 <= i64::MAX / 8
    &&& forall|i: int| 0 <= i < kf.len() ==> -(i64::MAX / 8) <= #[trigger] kf[i] <= i64::MAX / 8
}

/// Converts a point in the coordinates `κ` back to the coordinates `c₁`.
pub fn kappa_to_c1(kappa_free: &[i64], q1: usize) -> (c1: Vec<i64>)
    requires
        kappa_fits(kappa_free@, q1 as int),
    ensures
        c1@ == kappa_c1(kappa_free@, q1 as int),
{
    let q = q1 as i64;
    let nf = kappa_free.len();
    let mut c1: Vec<i64> = Vec::new();
    let kappa2: i64 = if nf > 0 { kappa_free[0] } else { 0 };
    c1.push(2 * q - kappa2);
    let mut i: usize = 1;
    while i < nf
        invariant
            kappa_fits(kappa_free@, q1 as int),
            q == q1,
            nf == kappa_free@.len(),
            1 <= i,
            i <= nf || (nf == 0 && i == 1),
            c1@.len() == i,
            forall|j: int| 0 <= j < i ==> #[trigger] c1@[j] == kappa_c1(kappa_free@, q1 as int)[j],
        decreases nf - i,
    {
        c1.push(q + kappa_free[i - 1] - kappa_free[i]);
        i = i + 1;
    }
    if nf > 0 {
        c1.push(1 + q + kappa_free[nf - 1]);
    }
    proof {
        let spec_c1 = kappa_c1(kappa_free@, q1 as int);
        if nf > 0 {
            assert(i == nf);
            assert(c1@.len() == nf + 1);
            assert(spec_c1.len() == nf + 1);
        } else {
            assert(c1@.len() == 1);
            assert(spec_c1.len() == 1);
        }
        assert forall|j: int| 0 <= j < c1@.len() implies c1@[j] == spec_c1[j] by {
            if j == nf && nf > 0 {
                assert(c1@[j] == 1 + q + kappa_free@[nf - 1]);
            }
        }
        assert(c1@ =~= spec_c1);
    }
    c1
}

/// How often `x` occurs in `s`.
pub open spec fn occurrences(s: Seq<Seq<i64>>, x: Seq<i64>) -> nat
    decreases s.len(),
{
    if s.len() == 0 {
        0
    } else {
        occurrences(s.drop_last(), x) + if s.last() == x { 1nat } else { 0nat }
    }
}

/// A point that occurs has a position.
proof fn lemma_occurs(s: Seq<Seq<i64>>, x: Seq<i64>)
    requires
        occurrences(s, x) > 0,
    ensures
        exists|i: int| 0 <= i < s.len() && s[i] == x,
    decreases s.len(),
{
    if s.last() != x {
        lemma_occurs(s.drop_last(), x);
        let i = choose|i: int| 0 <= i < s.drop_last().len() && s.drop_last()[i] == x;
        assert(s[i] == x);
    } else {
        assert(s[s.len() - 1] == x);
    }
}

/// Two rows are equal.
fn same_row(x: &Vec<i64>, y: &Vec<i64>) -> (b: bool)
    ensures
        b == (x@ == y@),
{
    if x.len() != y.len() {
        return false;
    }
    let mut i: usize = 0;
    while i < x.len()
        invariant
            x@.len() == y@.len(),
            i <= x@.len(),
            forall|j: int| 0 <= j < i ==> x@[j] == y@[j],
        decreases x@.len() - i,
    {
        if x[i] != y[i] {
            return false;
        }
        i = i + 1;
    }
    proof {
        assert(x@ =~= y@);
    }
    true
}

/// The number of occurrences of `x` among the points.
fn count_point(pts: &Vec<Vec<i64>>, x: &Vec<i64>) -> (c: usize)
    ensures
        c == occurrences(rows_of_vecs(pts@), x@),
{
    let mut c: usize = 0;
    let mut i: usize = 0;
    while i < pts.len()
        invariant
            i <= pts@.len(),
            c <= i,
            c == occurrences(rows_of_vecs(pts@).subrange(0, i as int), x@),
        decreases pts@.len() - i,
    {
        let hit = same_row(&pts[i], x);
        proof {
            let s = rows_of_vecs(pts@).subrange(0, i + 1);
            assert(s.drop_last() =~= rows_of_vecs(pts@).subrange(0, i as int));
            assert(s.last() == pts@[i as int]@);
        }
        if hit {
            c = c + 1;
        }
        i = i + 1;
    }
    proof {
        assert(rows_of_vecs(pts@).subrange(0, pts@.len() as int) =~= rows_of_vecs(pts@));
    }
    c
}

/// Every point of `a` occurs as often in `b` as in `a`.
fn counts_agree(a: &Vec<Vec<i64>>, b: &Vec<Vec<i64>>) -> (ok: bool)
    ensures
        ok == forall|i: int| 0 <= i < a@.len()
            ==> occurrences(rows_of_vecs(a@), #[trigger] a@[i]@) == occurrences(rows_of_vecs(b@), a@[i]@),
{
    let mut i: usize = 0;
    while i < a.len()
        invariant
            i <= a@.len(),
            forall|j: int| 0 <= j < i
                ==> occurrences(rows_of_vecs(a@), #[trigger] a@[j]@) == occurrences(rows_of_vecs(b@), a@[j]@),
        decreases a@.len() - i,
    {
        if count_point(a, &a[i]) != count_point(b, &a[i]) {
            return false;
        }
        i = i + 1;
    }
    true
}

/// The two lists hold the same points, each as often: they are equal once
/// sorted.
pub fn same_points(a: &Vec<Vec<i64>>, b: &Vec<Vec<i64>>) -> (same: bool)
    ensures
        same == forall|x: Seq<i64>| occurrences(rows_of_vecs(a@), x) == #[trigger] occurrences(rows_of_vecs(b@), x),
{
    let ab = counts_agree(a, b);
    let ba = counts_agree(b, a);
    proof {
        let sa = rows_of_vecs(a@);
        let sb = rows_of_vecs(b@);
        if ab && ba {
            assert forall|x: Seq<i64>| occurrences(sa, x) == #[trigger] occurrences(sb, x) by {
                if occurrences(sa, x) > 0 {
                    lemma_occurs(sa, x);
                    let i = choose|i: int| 0 <= i < sa.len() && sa[i] == x;
                    assert(a@[i]@ == x);
                } else if occurrences(sb, x) > 0 {
                    lemma_occurs(sb, x);
                    let i = choose|i: int| 0 <= i < sb.len() && sb[i] == x;
                    assert(b@[i]@ == x);
                }
            }
        } else if !ab {
            let i = choose|i: int| 0 <= i < a@.len()
                && occurrences(sa, #[trigger] a@[i]@) != occurrences(sb, a@[i]@);
            assert(occurrences(sa, a@[i]@) != occurrences(sb, a@[i]@));
        } else {
            let i = choose|i: int| 0 <= i < b@.len()
                && occurrences(sb, #[trigger] b@[i]@) != occurrences(sa, b@[i]@);
            assert(occurrences(sa, b@[i]@) != occurrences(sb, b@[i]@));
        }
    }
    ab && ba
}

/// The slices `(m, q₁)` with `3 ≤ m < hi` and `1 ≤ q₁ ≤ g + 2 − m`, in order.
pub open spec fn slices_below(g: int, hi: int) -> Seq<(usize, usize)>
    decreases hi,
{
    if hi <= 3 {
        Seq::empty()
    } else {
        let m = hi - 1;
        slices_below(g, hi - 1) + Seq::new((g + 2 - m) as nat, |i: int| (m as usize, (i + 1) as usize))
    }
}

/// The slices `(m, q₁)` of genus `g` computed by lattice points: `3 ≤ m ≤ g`
/// and `1 ≤ q₁ ≤ g + 2 − m` (the cells `m = 2` and `m = g + 1` have closed
/// forms, and larger `q₁` give empty slices).
pub fn kunz_slices(g: usize) -> (v: Vec<(usize, usize)>)
    requires
        g + 3 <= usize::MAX,
    ensures
        v@ == slices_below(g as int, g + 1),
{
    let mut v: Vec<(usize, usize)> = Vec::new();
    let mut m: usize = 3;
    proof {
        assert(slices_below(g as int, 3) == Seq::<(usize, usize)>::empty());
    }
    if g < 3 {
        proof {
            assert(slices_below(g as int, g + 1) == Seq::<(usize, usize)>::empty());
        }
        return v;
    }
    while m <= g
        invariant
            3 <= m <= g + 1,
            g + 3 <= usize::MAX,
            v@ == slices_below(g as int, m as int),
        decreases g + 1 - m,
    {
        let ghost before = v@;
        let mut q1: usize = 1;
        while q1 <= g + 2 - m
            invariant
                3 <= m <= g,
                g + 3 <= usize::MAX,
                1 <= q1 <= g + 3 - m,
                v@ == before + Seq::new((q1 - 1) as nat, |i: int| (m, (i + 1) as usize)),
            decreases g + 3 - m - q1,
        {
            v.push((m, q1));
            proof {
                assert(v@ =~= before + Seq::new(q1 as nat, |i: int| (m, (i + 1) as usize)));
            }
            q1 = q1 + 1;
        }
        proof {
            assert(v@ =~= slices_below(g as int, m + 1));
        }
        m = m + 1;
    }
    v
}

/// The Apéry element `w_k` recovered from `c₁`: `w₀ = 0`, `w₁ = m·q₁ + 1`,
/// and `w_{k+1} = w_k + w₁ − m·c₁[k − 1]`.
pub open spec fn apery_rec(m: int, q1: int, c1: Seq<i64>, k: int) -> int
    decreases k,
{
    if k <= 0 {
        0
    } else if k == 1 {
        m * q1 + 1
    } else {
        apery_rec(m, q1, c1, k - 1) + (m * q1 + 1) - m * c1[k - 2]
    }
}

/// The recurrence stays between 0 and `i64::MAX / 2` on `w₀, …, w_{m−1}`, and
/// each product `m · c₁[k]` is at most `i64::MAX / 4` in size.
pub open spec fn apery_rec_fits(m: int, q1: int, c1: Seq<i64>) -> bool {
    &&& 2 <= m
    &&& c1.len() >= m - 2
    &&& 4 * (m * q1 + 1) <= i64::MAX
    &&& 4 * m <= i64::MAX
    &&& m * q1 + 1 <= usize::MAX
    &&& forall|k: int| 0 <= k < m ==> 0 <= #[trigger] apery_rec(m, q1, c1, k) <= i64::MAX / 2
    &&& forall|k: int| 0 <= k < m ==> #[trigger] apery_rec(m, q1, c1, k) <= usize::MAX
    &&& forall|k: int| 0 <= k < m - 2 ==> -(i64::MAX / 4) <= m * #[trigger] c1[k] <= i64::MAX / 4
}

/// Recovers the Apéry set `(w₀, …, w_{m−1})` of the semigroup of a lattice
/// point `c₁` of the slice `(m, q₁)`.
pub fn apery_from_c1(m: usize, q1: usize, c1: &[i64]) -> (apery: Vec<usize>)
    requires
        apery_rec_fits(m as int, q1 as int, c1@),
    ensures
        apery@.len() == m,
        forall|k: int| 0 <= k < m ==> #[trigger] apery@[k] == apery_rec(m as int, q1 as int, c1@, k),
{
    let w1: usize = m * q1 + 1;
    let mut apery: Vec<usize> = Vec::new();
    apery.push(0);
    apery.push(w1);
    let mut k: usize = 1;
    proof {
        assert(apery_rec(m as int, q1 as int, c1@, 0) == 0);
        assert(apery_rec(m as int, q1 as int, c1@, 1) == w1);
    }
    while k < m - 1
        invariant
            apery_rec_fits(m as int, q1 as int, c1@),
            w1 == m * q1 + 1,
            1 <= k <= m - 1,
            apery@.len() == k + 1,
            forall|i: int| 0 <= i <= k ==> #[trigger] apery@[i] == apery_rec(m as int, q1 as int, c1@, i),
        decreases m - 1 - k,
    {
        proof {
            assert(0 <= apery_rec(m as int, q1 as int, c1@, k as int) <= i64::MAX / 2);
            assert(0 <= apery_rec(m as int, q1 as int, c1@, k + 1) <= i64::MAX / 2);
            assert(-(i64::MAX / 4) <= m * c1@[k - 1] <= i64::MAX / 4);
        }
        let prod: i64 = (m as i64) * c1[k - 1];
        let next: i64 = apery[k] as i64 + w1 as i64 - prod;
        proof {
            assert(next == apery_rec(m as int, q1 as int, c1@, k + 1));
        }
        proof {
            assert(apery_rec(m as int, q1 as int, c1@, k + 1) <= usize::MAX);
        }
        apery.push(next as usize);
        proof {
            assert(apery@[k + 1] == apery_rec(m as int, q1 as int, c1@, k + 1));
        }
        k = k + 1;
    }
    apery
}

/// The semigroup with multiplicity `m` and Apéry set `apery`: the one
/// generated by `m` and the positive Apéry elements.
pub fn semigroup_from_apery(m: usize, apery: &[usize]) -> (s: Semigroup)
    requires
        m >= 1,
        small_enough(m as int),
        forall|i: int| 0 <= i < apery@.len() ==> small_enough(#[trigger] apery@[i] as int),
    ensures
        s.wf(),
        forall|x: int| #[trigger] s.contains(x) == in_gen(reduced(without(apery@, 0).push(m)), x),
{
    let mut input: Vec<usize> = Vec::new();
    let mut i: usize = 0;
    while i < apery.len()
        invariant
            i <= apery@.len(),
            input@ == without(apery@.subrange(0, i as int), 0),
        decreases apery@.len() - i,
    {
        proof {
            let s = apery@.subrange(0, i + 1);
            assert(s.drop_last() =~= apery@.subrange(0, i as int));
        }
        if apery[i] > 0 {
            input.push(apery[i]);
        }
        i = i + 1;
    }
    proof {
        assert(apery@.subrange(0, apery@.len() as int) =~= apery@);
        crate::manipulators::lemma_without_members(apery@, 0);
    }
    input.push(m);
    proof {
        let w = without(apery@, 0);
        assert forall|k: int| 0 <= k < input@.len() implies #[trigger] input@[k] >= 1 && small_enough(input@[k] as int) by {
            if k < w.len() {
                let j = choose|j: int| 0 <= j < apery@.len() && apery@[j] == w[k];
                assert(w[k] as int != 0);
            }
        }
    }
    compute_small(&input)
}

/// `m, m + 1, …, 2m − 1`.
pub open spec fn interval_gens(m: int) -> Seq<usize> {
    Seq::new(m as nat, |i: int| (m + i) as usize)
}

/// `(1, …, 1, 3)` with `m − 2` ones: the point `c₁` of `⟨m, m + 1, …, 2m − 1⟩`.
pub open spec fn interval_point(m: int) -> Seq<i64> {
    Seq::new((m - 1) as nat, |i: int| if i < m - 2 { 1i64 } else { 3i64 })
}

/// The cells with a single semigroup, whose lattice point is known in
/// closed form, as `(q₁, (c₁, S))`: for `m = 2` only `⟨2, 2g + 1⟩` has genus
/// `g`, with `c₁ = (2g + 1)` and `q₁ = g`; for `m = g + 1 ≥ 3` only
/// `⟨m, m + 1, …, 2m − 1⟩`, with `c₁ = (1, …, 1, 3)` and `q₁ = 1`. Other
/// cells give `None`.
pub fn synthetic_lattice(g: usize, m: usize) -> (r: Option<(usize, (Vec<i64>, Semigroup))>)
    requires
        m == 2 ==> small_enough(2 * g + 1) && 2 * g + 1 <= i64::MAX,
        m == g + 1 && g >= 2 ==> small_enough(2 * m),
    ensures
        m == 2 ==> (r matches Some((q1, (pt, s))) && q1 == g && pt@ == seq![(2 * g + 1) as i64] && s.wf()
            && forall|x: int| #[trigger] s.contains(x) == in_gen(reduced(seq![2usize, (2 * g + 1) as usize]), x)),
        m != 2 && m == g + 1 && g >= 2 ==> (r matches Some((q1, (pt, s))) && q1 == 1 && pt@ == interval_point(m as int)
            && s.wf() && forall|x: int| #[trigger] s.contains(x) == in_gen(reduced(interval_gens(m as int)), x)),
        m != 2 && !(m == g + 1 && g >= 2) ==> r is None,
{
    if m == 2 {
        proof {
            let t = 2 * g + 1;
            assert(t <= usize::MAX) by (nonlinear_arith) requires 4 * (t * t * t) <= usize::MAX, t >= 1;
        }
        let top: usize = 2 * g + 1;
        let mut pt: Vec<i64> = Vec::new();
        pt.push(top as i64);
        let mut gens: Vec<usize> = Vec::new();
        gens.push(2);
        gens.push(top);
        proof {
            assert(small_enough(2));
            assert(gens@ =~= seq![2usize, (2 * g + 1) as usize]);
            assert(pt@ =~= seq![(2 * g + 1) as i64]);
        }
        let s = compute_small(&gens);
        Some((g, (pt, s)))
    } else if m >= 3 && m - 1 == g {
        let mut pt: Vec<i64> = Vec::new();
        let mut i: usize = 0;
        while i < m - 2
            invariant
                m >= 3,
                i <= m - 2,
                pt@.len() == i,
                forall|j: int| 0 <= j < i ==> #[trigger] pt@[j] == 1i64,
            decreases m - 2 - i,
        {
            pt.push(1);
            i = i + 1;
        }
        pt.push(3);
        proof {
            assert(pt@ =~= interval_point(m as int));
            assert(2 * m <= usize::MAX) by (nonlinear_arith) requires small_enough(2 * m);
        }
        let mut gens: Vec<usize> = Vec::new();
        let mut k: usize = m;
        while k < 2 * m
            invariant
                m >= 3,
                small_enough(2 * m),
                2 * m <= usize::MAX,
                m <= k <= 2 * m,
                gens@.len() == k - m,
                forall|j: int| 0 <= j < k - m ==> #[trigger] gens@[j] == m + j,
            decreases 2 * m - k,
        {
            gens.push(k);
            k = k + 1;
        }
        proof {
            assert(gens@ =~= interval_gens(m as int));
            assert forall|j: int| 0 <= j < gens@.len() implies #[trigger] gens@[j] >= 1 && small_enough(gens@[j] as int) by {
                crate::manipulators::lemma_small_mono(gens@[j] as int, 2 * m);
            }
        }
        let s = compute_small(&gens);
        Some((1, (pt, s)))
    } else {
        None
    }
}


/// The first `limit` points of `a`, in order, that do not occur in `b`
/// (within the first `k` points of `a`).
pub open spec fn missing_points(a: Seq<Seq<i64>>, b: Seq<Seq<i64>>, k: int, limit: nat) -> Seq<Seq<i64>>
    decreases k,
{
    if k <= 0 {
        Seq::empty()
    } else {
        let prev = missing_points(a, b, k - 1, limit);
        if prev.len() < limit && occurrences(b, a[k - 1]) == 0 { prev.push(a[k - 1]) } else { prev }
    }
}

/// The first `limit` points of `a` that do not occur in `b`: the sample a
/// mismatch report shows of each side.
pub fn points_missing(a: &Vec<Vec<i64>>, b: &Vec<Vec<i64>>, limit: usize) -> (r: Vec<Vec<i64>>)
    ensures
        rows_of_vecs(r@) == missing_points(rows_of_vecs(a@), rows_of_vecs(b@), a@.len() as int, limit as nat),
{
    let mut out: Vec<Vec<i64>> = Vec::new();
    let mut i: usize = 0;
    while i < a.len()
        invariant
            i <= a@.len(),
            rows_of_vecs(out@) == missing_points(rows_of_vecs(a@), rows_of_vecs(b@), i as int, limit as nat),
        decreases a@.len() - i,
    {
        if out.len() < limit && count_point(b, &a[i]) == 0 {
            let mut p: Vec<i64> = Vec::new();
            let mut j: usize = 0;
            while j < a[i].len()
                invariant
                    i < a@.len(),
                    j <= a@[i as int]@.len(),
                    p@ == a@[i as int]@.subrange(0, j as int),
                decreases a@[i as int]@.len() - j,
            {
                p.push(a[i][j]);
                proof {
                    assert(p@ =~= a@[i as int]@.subrange(0, j + 1));
                }
                j = j + 1;
            }
            proof {
                assert(p@ =~= a@[i as int]@);
            }
            let ghost before = rows_of_vecs(out@);
            out.push(p);
            proof {
                assert(rows_of_vecs(out@) =~= before.push(rows_of_vecs(a@)[i as int]));
            }
        }
        proof {
            assert(rows_of_vecs(out@).len() == out@.len());
        }
        i = i + 1;
    }
    out
}


/// The classes `k* = 1, …, m − 1` of the slice `(m, q₁)` as triples.
pub open spec fn slice_triples(m: usize, q1: usize) -> Seq<(usize, usize, usize)> {
    Seq::new(if m >= 1 { (m - 1) as nat } else { 0 }, |k: int| (m, q1, (k + 1) as usize))
}

/// The triples `(m, q₁, k*)` of the first `n` slices, in order.
pub open spec fn triples_of(pairs: Seq<(usize, usize)>, n: int) -> Seq<(usize, usize, usize)>
    decreases n,
{
    if n <= 0 {
        Seq::empty()
    } else {
        triples_of(pairs, n - 1) + slice_triples(pairs[n - 1].0, pairs[n - 1].1)
    }
}

/// Every slice `(m, q₁)` refined by the first class `k*` of the largest
/// Kunz quotient, `1 ≤ k* < m`: the inputs of the `k*` cones, slice by slice.
pub fn kstar_triples(pairs: &Vec<(usize, usize)>) -> (t: Vec<(usize, usize, usize)>)
    ensures
        t@ == triples_of(pairs@, pairs@.len() as int),
{
    let mut out: Vec<(usize, usize, usize)> = Vec::new();
    let mut i: usize = 0;
    while i < pairs.len()
        invariant
            i <= pairs@.len(),
            out@ == triples_of(pairs@, i as int),
        decreases pairs@.len() - i,
    {
        let (m, q1) = pairs[i];
        let ghost before = out@;
        let mut k: usize = 1;
        while k < m
            invariant
                1 <= k,
                k <= m || m == 0,
                m == 0 ==> k == 1,
                i < pairs@.len(),
                pairs@[i as int] == (m, q1),
                before == triples_of(pairs@, i as int),
                out@ == before + slice_triples(m, q1).subrange(0, (k - 1) as int),
            decreases m - k,
        {
            out.push((m, q1, k));
            proof {
                assert(out@ =~= before + slice_triples(m, q1).subrange(0, k as int));
            }
            k = k + 1;
        }
        proof {
            assert(triples_of(pairs@, i + 1) == triples_of(pairs@, i as int) + slice_triples(m, q1));
            if m >= 1 {
                assert(k == m);
                assert(slice_triples(m, q1).subrange(0, (k - 1) as int) =~= slice_triples(m, q1));
            } else {
                assert(slice_triples(m, q1).subrange(0, (k - 1) as int) =~= slice_triples(m, q1));
            }
            assert(out@ =~= triples_of(pairs@, i + 1));
        }
        i = i + 1;
    }
    out
}

} // verus!
