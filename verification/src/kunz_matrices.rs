//! Integer matrices attached to the Kunz coordinates of a semigroup of
//! multiplicity `m`: U(m), L(m), V(m), the Kunz matrix and its reduced form
//! `C_red`, the product `U(m)·C_red`, the pair-relations matrices, the
//! zero-diagonal vector zd(m) and the anti-diagonal matrix D(m).
//!
//! Indices are 0-based: internal index `a` stands for the semigroup index
//! `a + 1` wherever the row or column of index 0 is dropped.
use vstd::prelude::*;
use crate::inspect::kunz_spec;
use crate::matrix::{lemma_flat_bound, lemma_flat_split, DenseMatrix};
use crate::semigroup::Semigroup;

verus! {

/// `U(m)[a][b] = a + 1 − m` for `b < a`, and `a + 1` for `b ≥ a`.
pub open spec fn u_entry(m: int, a: int, b: int) -> int {
    if b < a { a + 1 - m } else { a + 1 }
}

/// `L(m)[a][b] = 1` strictly below the diagonal, else 0.
pub open spec fn l_entry(a: int, b: int) -> int {
    if a > b { 1 } else { 0 }
}

/// `V(m)`: first row `(2, −1, 0, …)`; middle row `a` has 1 at columns 0 and
/// `a` and −1 at column `a + 1`; the last row has 1 at columns 0 and `m − 2`;
/// for `m = 2` the single entry is 2.
pub open spec fn v_entry(m: int, a: int, b: int) -> int {
    let n = m - 1;
    if a == 0 {
        if b == 0 { 2 } else if b == 1 { -1 } else { 0 }
    } else if a < n - 1 {
        if b == 0 || b == a { 1 } else if b == a + 1 { -1 } else { 0 }
    } else {
        if b == 0 || b == n - 1 { 1 } else { 0 }
    }
}

/// `zd(m)[b] = 2b − m + 3`.
pub open spec fn zd_entry(m: int, b: int) -> int {
    2 * b - m + 3
}

/// `D(m)[a][b] = zd(m)[b] − U(m)[a][b]`.
pub open spec fn d_entry(m: int, a: int, b: int) -> int {
    zd_entry(m, b) - u_entry(m, a, b)
}

/// `x` is an `n × n` `i64` matrix (`n = m − 1`) whose entry `(a, b)` is `f(a, b)`.
pub open spec fn is_square_of(x: DenseMatrix<i64>, m: int, f: spec_fn(int, int) -> int) -> bool {
    &&& x.wf()
    &&& x.rows_spec() == m - 1
    &&& x.cols_spec() == m - 1
    &&& forall|a: int, b: int| 0 <= a < m - 1 && 0 <= b < m - 1 ==> #[trigger] x.at(a, b) as int == f(a, b)
}

/// The matrix U(m).
pub open spec fn is_u(x: DenseMatrix<i64>, m: int) -> bool {
    is_square_of(x, m, |a: int, b: int| u_entry(m, a, b))
}

/// The matrix L(m).
pub open spec fn is_l(x: DenseMatrix<i64>, m: int) -> bool {
    is_square_of(x, m, |a: int, b: int| l_entry(a, b))
}

/// The matrix V(m).
pub open spec fn is_v(x: DenseMatrix<i64>, m: int) -> bool {
    is_square_of(x, m, |a: int, b: int| v_entry(m, a, b))
}

/// The matrix D(m).
pub open spec fn is_d(x: DenseMatrix<i64>, m: int) -> bool {
    is_square_of(x, m, |a: int, b: int| d_entry(m, a, b))
}

/// The sizes that keep every U-type matrix of multiplicity `m` addressable.
pub open spec fn matrix_size_ok(m: int) -> bool {
    &&& m >= 2
    &&& (m - 1) * (m - 1) <= usize::MAX
}

/// Builds the `n × n` matrix (`n = m − 1`) of U(m).
pub fn u_matrix(m: usize) -> (u: DenseMatrix<i64>)
    requires
        matrix_size_ok(m as int),
    ensures
        is_u(u, m as int),
{
    let n = m - 1;
    proof {
        assert(m <= i64::MAX) by (nonlinear_arith) requires (m - 1) * (m - 1) <= usize::MAX, m >= 2, usize::MAX <= u64::MAX;
    }
    let mi = m as i64;
    let mut data: Vec<i64> = Vec::new();
    let mut a: usize = 0;
    while a < n
        invariant
            n == m - 1,
            m >= 2,
            n * n <= usize::MAX,
            mi == m,
            m <= i64::MAX,
            a <= n,
            data@.len() == a * n,
            forall|q: int| 0 <= q < data@.len() ==> #[trigger] data@[q] as int == u_entry(m as int, q / (n as int), q % (n as int)),
        decreases n - a,
    {
        let ki = (a + 1) as i64;
        let mut b: usize = 0;
        while b < n
            invariant
                n == m - 1,
                m >= 2,
                n * n <= usize::MAX,
                mi == m,
                m <= i64::MAX,
                a < n,
                ki == a + 1,
                b <= n,
                data@.len() == a * n + b,
                forall|q: int| 0 <= q < data@.len() ==> #[trigger] data@[q] as int == u_entry(m as int, q / (n as int), q % (n as int)),
            decreases n - b,
        {
            proof {
                lemma_flat_split(n as int, a as int, b as int);
            }
            data.push(if b < a { ki - mi } else { ki });
            b = b + 1;
        }
        assert(data@.len() == (a + 1) * n) by (nonlinear_arith) requires data@.len() == a * n + n;
        a = a + 1;
    }
    let u = DenseMatrix::from_vec(n, n, data);
    assert forall|a: int, b: int| 0 <= a < n && 0 <= b < n implies #[trigger] u.at(a, b) as int == u_entry(m as int, a, b) by {
        lemma_flat_bound(n as int, n as int, a, b);
        lemma_flat_split(n as int, a, b);
    }
    u
}

/// Builds L(m): ones strictly below the diagonal.
pub fn l_matrix(m: usize) -> (l: DenseMatrix<i64>)
    requires
        matrix_size_ok(m as int),
    ensures
        is_l(l, m as int),
{
    let n = m - 1;
    let mut data: Vec<i64> = Vec::new();
    let mut i: usize = 0;
    while i < n
        invariant
            n == m - 1,
            n * n <= usize::MAX,
            i <= n,
            data@.len() == i * n,
            forall|q: int| 0 <= q < data@.len() ==> #[trigger] data@[q] as int == l_entry(q / (n as int), q % (n as int)),
        decreases n - i,
    {
        let mut j: usize = 0;
        while j < n
            invariant
                n == m - 1,
                n * n <= usize::MAX,
                i < n,
                j <= n,
                data@.len() == i * n + j,
                forall|q: int| 0 <= q < data@.len() ==> #[trigger] data@[q] as int == l_entry(q / (n as int), q % (n as int)),
            decreases n - j,
        {
            proof {
                lemma_flat_split(n as int, i as int, j as int);
            }
            data.push(if j < i { 1 } else { 0 });
            j = j + 1;
        }
        assert(data@.len() == (i + 1) * n) by (nonlinear_arith) requires data@.len() == i * n + n;
        i = i + 1;
    }
    let l = DenseMatrix::from_vec(n, n, data);
    assert forall|a: int, b: int| 0 <= a < n && 0 <= b < n implies #[trigger] l.at(a, b) as int == l_entry(a, b) by {
        lemma_flat_bound(n as int, n as int, a, b);
        lemma_flat_split(n as int, a, b);
    }
    l
}

/// Builds V(m), the integer matrix with `V(m)·U(m) = m·I`.
pub fn v_matrix(m: usize) -> (v: DenseMatrix<i64>)
    requires
        matrix_size_ok(m as int),
    ensures
        is_v(v, m as int),
{
    let n = m - 1;
    let mut data: Vec<i64> = Vec::new();
    let mut a: usize = 0;
    while a < n
        invariant
            n == m - 1,
            n * n <= usize::MAX,
            a <= n,
            data@.len() == a * n,
            forall|q: int| 0 <= q < data@.len() ==> #[trigger] data@[q] as int == v_entry(m as int, q / (n as int), q % (n as int)),
        decreases n - a,
    {
        let mut b: usize = 0;
        while b < n
            invariant
                n == m - 1,
                n * n <= usize::MAX,
                a < n,
                b <= n,
                data@.len() == a * n + b,
                forall|q: int| 0 <= q < data@.len() ==> #[trigger] data@[q] as int == v_entry(m as int, q / (n as int), q % (n as int)),
            decreases n - b,
        {
            proof {
                lemma_flat_split(n as int, a as int, b as int);
            }
            let x: i64 = if a == 0 {
                if b == 0 { 2 } else if b == 1 { -1 } else { 0 }
            } else if a + 1 < n {
                if b == 0 || b == a { 1 } else if b == a + 1 { -1 } else { 0 }
            } else {
                if b == 0 || b + 1 == n { 1 } else { 0 }
            };
            data.push(x);
            b = b + 1;
        }
        assert(data@.len() == (a + 1) * n) by (nonlinear_arith) requires data@.len() == a * n + n;
        a = a + 1;
    }
    let v = DenseMatrix::from_vec(n, n, data);
    assert forall|a: int, b: int| 0 <= a < n && 0 <= b < n implies #[trigger] v.at(a, b) as int == v_entry(m as int, a, b) by {
        lemma_flat_bound(n as int, n as int, a, b);
        lemma_flat_split(n as int, a, b);
    }
    v
}

/// Builds the `m × m` Kunz matrix: entry `(i, j)` is `c(i, j)`.
pub fn kunz_matrix(s: &Semigroup) -> (k: DenseMatrix<usize>)
    requires
        s.wf(),
    ensures
        k.wf(),
        k.rows_spec() == s.m,
        k.cols_spec() == s.m,
        forall|i: int, j: int| 0 <= i < s.m && 0 <= j < s.m ==> #[trigger] k.at(i, j) == kunz_spec(s.apery_set@, s.m as int, i, j),
{
    let m = s.m;
    proof {
        assert(m * m <= usize::MAX) by (nonlinear_arith)
            requires 4 * (s.m * (s.f + s.m)) <= usize::MAX, m == s.m, m >= 1;
    }
    let mut data: Vec<usize> = Vec::new();
    let mut i: usize = 0;
    while i < m
        invariant
            s.wf(),
            m == s.m,
            m * m <= usize::MAX,
            i <= m,
            data@.len() == i * m,
            forall|q: int| 0 <= q < data@.len() ==> #[trigger] data@[q] == kunz_spec(s.apery_set@, m as int, q / (m as int), q % (m as int)),
        decreases m - i,
    {
        let mut j: usize = 0;
        while j < m
            invariant
                s.wf(),
                m == s.m,
                m * m <= usize::MAX,
                i < m,
                j <= m,
                data@.len() == i * m + j,
                forall|q: int| 0 <= q < data@.len() ==> #[trigger] data@[q] == kunz_spec(s.apery_set@, m as int, q / (m as int), q % (m as int)),
            decreases m - j,
        {
            proof {
                lemma_flat_split(m as int, i as int, j as int);
            }
            data.push(s.kunz(i, j));
            j = j + 1;
        }
        assert(data@.len() == (i + 1) * m) by (nonlinear_arith) requires data@.len() == i * m + m;
        i = i + 1;
    }
    let k = DenseMatrix::from_vec(m, m, data);
    assert forall|i: int, j: int| 0 <= i < m && 0 <= j < m implies #[trigger] k.at(i, j) == kunz_spec(s.apery_set@, m as int, i, j) by {
        lemma_flat_bound(m as int, m as int, i, j);
        lemma_flat_split(m as int, i, j);
    }
    k
}

/// Builds `C_red`: the Kunz matrix without its index-0 row and column,
/// `C_red[a][b] = c(a + 1, b + 1)`.
pub fn c_red(s: &Semigroup) -> (c: DenseMatrix<usize>)
    requires
        s.wf(),
        s.m >= 2,
    ensures
        c.wf(),
        c.rows_spec() == s.m - 1,
        c.cols_spec() == s.m - 1,
        forall|a: int, b: int| 0 <= a < s.m - 1 && 0 <= b < s.m - 1
            ==> #[trigger] c.at(a, b) == kunz_spec(s.apery_set@, s.m as int, a + 1, b + 1),
{
    let m = s.m;
    let n = m - 1;
    proof {
        assert(n * n <= usize::MAX) by (nonlinear_arith)
            requires 4 * (s.m * (s.f + s.m)) <= usize::MAX, m == s.m, n == m - 1, m >= 2;
    }
    let mut data: Vec<usize> = Vec::new();
    let mut a: usize = 0;
    while a < n
        invariant
            s.wf(),
            m == s.m,
            n == m - 1,
            n * n <= usize::MAX,
            a <= n,
            data@.len() == a * n,
            forall|q: int| 0 <= q < data@.len() ==> #[trigger] data@[q] == kunz_spec(s.apery_set@, m as int, q / (n as int) + 1, q % (n as int) + 1),
        decreases n - a,
    {
        let mut b: usize = 0;
        while b < n
            invariant
                s.wf(),
                m == s.m,
                n == m - 1,
                n * n <= usize::MAX,
                a < n,
                b <= n,
                data@.len() == a * n + b,
                forall|q: int| 0 <= q < data@.len() ==> #[trigger] data@[q] == kunz_spec(s.apery_set@, m as int, q / (n as int) + 1, q % (n as int) + 1),
            decreases n - b,
        {
            proof {
                lemma_flat_split(n as int, a as int, b as int);
            }
            data.push(s.kunz(a + 1, b + 1));
            b = b + 1;
        }
        assert(data@.len() == (a + 1) * n) by (nonlinear_arith) requires data@.len() == a * n + n;
        a = a + 1;
    }
    let c = DenseMatrix::from_vec(n, n, data);
    assert forall|a: int, b: int| 0 <= a < n && 0 <= b < n implies #[trigger] c.at(a, b) == kunz_spec(s.apery_set@, m as int, a + 1, b + 1) by {
        lemma_flat_bound(n as int, n as int, a, b);
        lemma_flat_split(n as int, a, b);
    }
    c
}

/// Builds the `1 × (m − 1)` row vector zd(m), `zd(m)[b] = 2b − m + 3`.
pub fn zd_vector(m: usize) -> (zd: DenseMatrix<i64>)
    requires
        matrix_size_ok(m as int),
    ensures
        zd.wf(),
        zd.rows_spec() == 1,
        zd.cols_spec() == m - 1,
        forall|b: int| 0 <= b < m - 1 ==> #[trigger] zd.at(0, b) as int == zd_entry(m as int, b),
{
    let n = m - 1;
    proof {
        assert(m <= i64::MAX) by (nonlinear_arith) requires (m - 1) * (m - 1) <= usize::MAX, m >= 2, usize::MAX <= u64::MAX;
        assert(2 * n <= i64::MAX) by (nonlinear_arith) requires (m - 1) * (m - 1) <= usize::MAX, m >= 2, n == m - 1, usize::MAX <= u64::MAX;
    }
    let mi = m as i64;
    let mut data: Vec<i64> = Vec::new();
    let mut b: usize = 0;
    while b < n
        invariant
            n == m - 1,
            mi == m,
            2 * n <= i64::MAX,
            b <= n,
            data@.len() == b,
            forall|q: int| 0 <= q < b ==> #[trigger] data@[q] as int == zd_entry(m as int, q),
        decreases n - b,
    {
        let bi = b as i64;
        data.push(2 * bi - mi + 3);
        b = b + 1;
    }
    let zd = DenseMatrix::from_vec(1, n, data);
    assert forall|b: int| 0 <= b < n implies #[trigger] zd.at(0, b) as int == zd_entry(m as int, b) by {
        assert(0 * (n as int) + b == b);
    }
    zd
}

/// Builds D(m): `D(m)[a][b] = zd(m)[b] − U(m)[a][b]`.
pub fn d_matrix(m: usize) -> (d: DenseMatrix<i64>)
    requires
        matrix_size_ok(m as int),
    ensures
        is_d(d, m as int),
{
    let n = m - 1;
    let zd = zd_vector(m);
    let u = u_matrix(m);
    let mut data: Vec<i64> = Vec::new();
    let mut a: usize = 0;
    proof {
        assert(m <= 0x1_0000_0001) by (nonlinear_arith) requires (m - 1) * (m - 1) <= usize::MAX, m >= 2, usize::MAX <= u64::MAX;
    }
    while a < n
        invariant
            n == m - 1,
            n * n <= usize::MAX,
            m <= 0x1_0000_0001,
            zd.wf(),
            zd.rows_spec() == 1,
            zd.cols_spec() == n,
            forall|b: int| 0 <= b < n ==> #[trigger] zd.at(0, b) as int == zd_entry(m as int, b),
            is_u(u, m as int),
            a <= n,
            data@.len() == a * n,
            forall|q: int| 0 <= q < data@.len() ==> #[trigger] data@[q] as int == d_entry(m as int, q / (n as int), q % (n as int)),
        decreases n - a,
    {
        let mut b: usize = 0;
        while b < n
            invariant
                n == m - 1,
                n * n <= usize::MAX,
                m <= 0x1_0000_0001,
                zd.wf(),
                zd.rows_spec() == 1,
                zd.cols_spec() == n,
                forall|b: int| 0 <= b < n ==> #[trigger] zd.at(0, b) as int == zd_entry(m as int, b),
                is_u(u, m as int),
                a < n,
                b <= n,
                data@.len() == a * n + b,
                forall|q: int| 0 <= q < data@.len() ==> #[trigger] data@[q] as int == d_entry(m as int, q / (n as int), q % (n as int)),
            decreases n - b,
        {
            proof {
                lemma_flat_split(n as int, a as int, b as int);
                assert(zd.at(0, b as int) as int == zd_entry(m as int, b as int));
                assert(u.at(a as int, b as int) as int == u_entry(m as int, a as int, b as int));
            }
            let x = zd[(0, b)] - u[(a, b)];
            data.push(x);
            b = b + 1;
        }
        assert(data@.len() == (a + 1) * n) by (nonlinear_arith) requires data@.len() == a * n + n;
        a = a + 1;
    }
    let d = DenseMatrix::from_vec(n, n, data);
    assert forall|a: int, b: int| 0 <= a < n && 0 <= b < n implies #[trigger] d.at(a, b) as int == d_entry(m as int, a, b) by {
        lemma_flat_bound(n as int, n as int, a, b);
        lemma_flat_split(n as int, a, b);
    }
    d
}

/// Converts a `usize` matrix whose entries fit in an `i64`.
pub fn to_i64(mat: &DenseMatrix<usize>) -> (out: DenseMatrix<i64>)
    requires
        mat.wf(),
        forall|k: int| 0 <= k < mat.entries().len() ==> #[trigger] mat.entries()[k] <= i64::MAX,
    ensures
        out.wf(),
        out.rows_spec() == mat.rows_spec(),
        out.cols_spec() == mat.cols_spec(),
        out.entries().len() == mat.entries().len(),
        forall|k: int| 0 <= k < out.entries().len() ==> #[trigger] out.entries()[k] as int == mat.entries()[k] as int,
{
    let src = mat.as_slice();
    let mut data: Vec<i64> = Vec::new();
    let mut k: usize = 0;
    while k < src.len()
        invariant
            src@ == mat.entries(),
            forall|q: int| 0 <= q < src@.len() ==> #[trigger] src@[q] <= i64::MAX,
            k <= src@.len(),
            data@.len() == k,
            forall|q: int| 0 <= q < k ==> #[trigger] data@[q] as int == src@[q] as int,
        decreases src@.len() - k,
    {
        data.push(src[k] as i64);
        k = k + 1;
    }
    DenseMatrix::from_vec(mat.nrows(), mat.ncols(), data)
}


/// `Σ_{l<k} C[l][b]`: a partial column sum.
pub open spec fn col_total(c: DenseMatrix<usize>, b: int, k: int) -> int
    decreases k,
{
    if k <= 0 {
        0
    } else {
        col_total(c, b, k - 1) + c.at(k - 1, b)
    }
}

/// `Σ_{l<k} U(m)[a][l] · C[l][b]`: a partial entry of `U(m) · C`.
pub open spec fn u_dot(c: DenseMatrix<usize>, m: int, a: int, b: int, k: int) -> int
    decreases k,
{
    if k <= 0 {
        0
    } else {
        u_dot(c, m, a, b, k - 1) + u_entry(m, a, k - 1) * c.at(k - 1, b)
    }
}

/// Partial column sums grow with `k`.
proof fn lemma_col_total_mono(c: DenseMatrix<usize>, b: int, j: int, k: int)
    requires
        0 <= j <= k,
    ensures
        0 <= col_total(c, b, j) <= col_total(c, b, k),
    decreases k,
{
    if k > j {
        lemma_col_total_mono(c, b, j, k - 1);
    } else if k > 0 {
        lemma_col_total_mono(c, b, k - 1, k - 1);
    }
}

/// Row `a` of `U(m)` is `a + 1` everywhere minus `m` before the diagonal, so
/// `Σ_{l<k} U[a][l]·C[l][b] = (a + 1)·Σ_{l<k} C[l][b] − m·Σ_{l<min(a,k)} C[l][b]`.
pub proof fn lemma_u_dot_split(c: DenseMatrix<usize>, m: int, a: int, b: int, k: int)
    requires
        0 <= a,
        0 <= k,
    ensures
        u_dot(c, m, a, b, k) == (a + 1) * col_total(c, b, k) - m * col_total(c, b, if k < a { k } else { a }),
    decreases k,
{
    if k > 0 {
        lemma_u_dot_split(c, m, a, b, k - 1);
        let x = c.at(k - 1, b) as int;
        let t = col_total(c, b, k - 1);
        let prev = u_dot(c, m, a, b, k - 1);
        assert(col_total(c, b, k) == t + x);
        assert(u_dot(c, m, a, b, k) == prev + u_entry(m, a, k - 1) * x);
        if k - 1 < a {
            assert(prev == (a + 1) * t - m * t);
            assert(col_total(c, b, if k < a { k } else { a }) == t + x);
            assert(prev + (a + 1 - m) * x == (a + 1) * (t + x) - m * (t + x)) by (nonlinear_arith)
                requires prev == (a + 1) * t - m * t;
        } else {
            let tm = col_total(c, b, a);
            assert(prev == (a + 1) * t - m * tm);
            assert(prev + (a + 1) * x == (a + 1) * (t + x) - m * tm) by (nonlinear_arith)
                requires prev == (a + 1) * t - m * tm;
        }
    } else {
        assert(u_dot(c, m, a, b, k) == 0);
        assert(col_total(c, b, 0) == 0);
        assert((a + 1) * 0int - m * 0int == 0) by (nonlinear_arith);
    }
}

/// Every column sum of `C`, scaled by `m`, fits in an `i64`.
pub open spec fn u_times_fits(c: DenseMatrix<usize>) -> bool {
    forall|b: int| 0 <= b < c.cols_spec() ==> (c.rows_spec() + 1) * #[trigger] col_total(c, b, c.rows_spec() as int) <= i64::MAX
}

/// `U(m) · C` for a square `(m − 1) × (m − 1)` matrix `C`, computed from
/// column sums and prefix sums in `O(m²)`:
/// `(U·C)[a][b] = (a + 1)·S[b] − m·P(a, b)`.
pub fn u_times_c_red(c: &DenseMatrix<usize>) -> (p: DenseMatrix<i64>)
    requires
        c.wf(),
        c.rows_spec() == c.cols_spec(),
        u_times_fits(*c),
    ensures
        p.wf(),
        p.rows_spec() == c.rows_spec(),
        p.cols_spec() == c.rows_spec(),
        forall|a: int, b: int| 0 <= a < c.rows_spec() && 0 <= b < c.rows_spec()
            ==> #[trigger] p.at(a, b) as int == u_dot(*c, c.rows_spec() + 1int, a, b, c.rows_spec() as int),
{
    let n = c.nrows();
    let len = c.as_slice().len();
    proof {
        assert(n + 1 <= i64::MAX) by (nonlinear_arith) requires len == n * n, len <= usize::MAX, usize::MAX <= u64::MAX;
        assert(n + 1 <= usize::MAX) by (nonlinear_arith) requires len == n * n, len <= usize::MAX;
    }
    let m = n + 1;
    let mut col_sum: Vec<i64> = Vec::new();
    let mut b: usize = 0;
    while b < n
        invariant
            c.wf(),
            n == c.rows_spec(),
            n == c.cols_spec(),
            u_times_fits(*c),
            b <= n,
            col_sum@.len() == b,
            forall|q: int| 0 <= q < b ==> #[trigger] col_sum@[q] as int == col_total(*c, q, n as int),
        decreases n - b,
    {
        let mut acc: i64 = 0;
        let mut r: usize = 0;
        while r < n
            invariant
                c.wf(),
                n == c.rows_spec(),
                n == c.cols_spec(),
                u_times_fits(*c),
                b < n,
                r <= n,
                acc as int == col_total(*c, b as int, r as int),
            decreases n - r,
        {
            proof {
                lemma_col_total_mono(*c, b as int, r + 1, n as int);
                assert((n + 1) * col_total(*c, b as int, n as int) <= i64::MAX);
                assert(col_total(*c, b as int, n as int) <= (n + 1) * col_total(*c, b as int, n as int)) by (nonlinear_arith)
                    requires col_total(*c, b as int, n as int) >= 0;
                assert(col_total(*c, b as int, r + 1) == col_total(*c, b as int, r as int) + c.at(r as int, b as int));
                lemma_col_total_mono(*c, b as int, r as int, r as int);
            }
            let v = c.get(r, b);
            acc = acc + v as i64;
            r = r + 1;
        }
        col_sum.push(acc);
        b = b + 1;
    }
    let mi = m as i64;
    let mut prefix: Vec<i64> = Vec::new();
    let mut z: usize = 0;
    while z < n
        invariant
            z <= n,
            prefix@.len() == z,
            forall|q: int| 0 <= q < z ==> #[trigger] prefix@[q] == 0,
        decreases n - z,
    {
        prefix.push(0);
        z = z + 1;
    }
    let mut data: Vec<i64> = Vec::new();
    let mut a: usize = 0;
    while a < n
        invariant
            c.wf(),
            n == c.rows_spec(),
            n == c.cols_spec(),
            len == n * n,
            u_times_fits(*c),
            m == n + 1,
            mi == m,
            a <= n,
            col_sum@.len() == n,
            prefix@.len() == n,
            forall|q: int| 0 <= q < n ==> #[trigger] col_sum@[q] as int == col_total(*c, q, n as int),
            forall|q: int| 0 <= q < n ==> #[trigger] prefix@[q] as int == col_total(*c, q, a as int),
            data@.len() == a * n,
            forall|q: int| 0 <= q < data@.len() ==> #[trigger] data@[q] as int == u_dot(*c, m as int, q / (n as int), q % (n as int), n as int),
        decreases n - a,
    {
        let ki = (a + 1) as i64;
        let mut b: usize = 0;
        while b < n
            invariant
                c.wf(),
                n == c.rows_spec(),
                n == c.cols_spec(),
                len == n * n,
                u_times_fits(*c),
                m == n + 1,
                mi == m,
                a < n,
                ki == a + 1,
                b <= n,
                col_sum@.len() == n,
                prefix@.len() == n,
                forall|q: int| 0 <= q < n ==> #[trigger] col_sum@[q] as int == col_total(*c, q, n as int),
                forall|q: int| 0 <= q < n ==> #[trigger] prefix@[q] as int == col_total(*c, q, a as int),
                data@.len() == a * n + b,
                forall|q: int| 0 <= q < data@.len() ==> #[trigger] data@[q] as int == u_dot(*c, m as int, q / (n as int), q % (n as int), n as int),
            decreases n - b,
        {
            proof {
                lemma_flat_split(n as int, a as int, b as int);
                let t = col_total(*c, b as int, n as int);
                let pr = col_total(*c, b as int, a as int);
                lemma_col_total_mono(*c, b as int, a as int, n as int);
                lemma_u_dot_split(*c, m as int, a as int, b as int, n as int);
                assert((n + 1) * t <= i64::MAX);
                assert(ki * t <= (n + 1) * t) by (nonlinear_arith) requires ki <= n, t >= 0;
                assert(0 <= mi * pr <= (n + 1) * t) by (nonlinear_arith) requires mi == n + 1, 0 <= pr <= t;
                assert(ki * t >= 0) by (nonlinear_arith) requires ki >= 1, t >= 0;
            }
            let x = ki * col_sum[b] - mi * prefix[b];
            data.push(x);
            b = b + 1;
        }
        let mut b2: usize = 0;
        while b2 < n
            invariant
                c.wf(),
                n == c.rows_spec(),
                n == c.cols_spec(),
                u_times_fits(*c),
                a < n,
                b2 <= n,
                prefix@.len() == n,
                forall|q: int| 0 <= q < b2 ==> #[trigger] prefix@[q] as int == col_total(*c, q, a + 1),
                forall|q: int| b2 <= q < n ==> #[trigger] prefix@[q] as int == col_total(*c, q, a as int),
            decreases n - b2,
        {
            proof {
                lemma_col_total_mono(*c, b2 as int, a + 1, n as int);
                let t = col_total(*c, b2 as int, n as int);
                assert(t <= (n + 1) * t) by (nonlinear_arith) requires t >= 0;
                assert(col_total(*c, b2 as int, a + 1) == col_total(*c, b2 as int, a as int) + c.at(a as int, b2 as int));
                lemma_col_total_mono(*c, b2 as int, a as int, a as int);
            }
            let v = c.get(a, b2);
            let updated = prefix[b2] + v as i64;
            prefix.set(b2, updated);
            b2 = b2 + 1;
        }
        assert(data@.len() == (a + 1) * n) by (nonlinear_arith) requires data@.len() == a * n + n;
        a = a + 1;
    }
    let p = DenseMatrix::from_vec(n, n, data);
    assert forall|a: int, b: int| 0 <= a < n && 0 <= b < n implies #[trigger] p.at(a, b) as int == u_dot(*c, m as int, a, b, n as int) by {
        lemma_flat_bound(n as int, n as int, a, b);
        lemma_flat_split(n as int, a, b);
    }
    p
}


/// `(a + 1) + (b + 1)` reduced modulo `m` (the sum is below `2m`).
pub open spec fn pair_k(m: int, a: int, b: int) -> int {
    if a + b + 2 >= m { a + b + 2 - m } else { a + b + 2 }
}

/// The unscaled pair relation `U[a] + U[b] − U[k − 1]` at column `col`
/// (the last term absent when `k = 0`).
pub open spec fn pair_unscaled(m: int, a: int, b: int, col: int) -> int {
    let k = pair_k(m, a, b);
    u_entry(m, a, col) + u_entry(m, b, col) - if k != 0 { u_entry(m, k - 1, col) } else { 0 }
}

/// `1` when `p` holds, else `0`.
pub open spec fn ind(p: bool) -> int {
    if p { 1 } else { 0 }
}

/// The pair relation divided by `m`:
/// `[a + b + 2 ≥ m] − [col < a] − [col < b] + [k ≠ 0 ∧ col < k − 1]`.
pub open spec fn pair_entry(m: int, a: int, b: int, col: int) -> int {
    let k = pair_k(m, a, b);
    ind(a + b + 2 >= m) - ind(col < a) - ind(col < b) + ind(k != 0 && col < k - 1)
}

/// The unscaled pair relation is `m` times [`pair_entry`]: it is always divisible by `m`.
pub proof fn lemma_pair_unscaled(m: int, a: int, b: int, col: int)
    requires
        m >= 2,
        0 <= a <= b < m - 1,
        0 <= col < m - 1,
    ensures
        pair_unscaled(m, a, b, col) == m * pair_entry(m, a, b, col),
{
    let k = pair_k(m, a, b);
    let w = ind(a + b + 2 >= m);
    assert(a + 1 + b + 1 - (if k != 0 { k } else { 0 }) == m * w) by (nonlinear_arith)
        requires k == (if a + b + 2 >= m { a + b + 2 - m } else { a + b + 2 }), w == ind(a + b + 2 >= m), a >= 0, b >= 0;
    assert(u_entry(m, a, col) == a + 1 - m * ind(col < a));
    assert(u_entry(m, b, col) == b + 1 - m * ind(col < b));
    if k != 0 {
        assert(u_entry(m, k - 1, col) == k - m * ind(col < k - 1));
    }
    assert(pair_unscaled(m, a, b, col) == m * w - m * ind(col < a) - m * ind(col < b) + m * ind(k != 0 && col < k - 1));
    assert(m * w - m * ind(col < a) - m * ind(col < b) + m * ind(k != 0 && col < k - 1)
        == m * (w - ind(col < a) - ind(col < b) + ind(k != 0 && col < k - 1))) by (nonlinear_arith);
}

/// Number of pairs `(a', b')`, `a' ≤ b' < n`, with `a' < a`.
pub open spec fn rows_before(a: int, n: int) -> int
    decreases a,
{
    if a <= 0 {
        0
    } else {
        rows_before(a - 1, n) + (n - (a - 1))
    }
}

/// Row of the pair `(a, b)`, `a ≤ b < n`, in lexicographic order.
pub open spec fn pair_row(a: int, b: int, n: int) -> int {
    rows_before(a, n) + (b - a)
}

/// `2 · rows_before(a, n) = a · (2n − a + 1)`.
pub proof fn lemma_rows_before_closed(a: int, n: int)
    requires
        a >= 0,
    ensures
        2 * rows_before(a, n) == a * (2 * n - a + 1),
    decreases a,
{
    if a > 0 {
        lemma_rows_before_closed(a - 1, n);
        let r = rows_before(a - 1, n);
        assert(rows_before(a, n) == r + (n - (a - 1)));
        assert(2 * r + 2 * (n - (a - 1)) == a * (2 * n - a + 1)) by (nonlinear_arith)
            requires 2 * r == (a - 1) * (2 * n - (a - 1) + 1);
    } else {
        assert(a * (2 * n - a + 1) == 0) by (nonlinear_arith) requires a == 0;
    }
}

/// `rows_before` grows up to `n`.
proof fn lemma_rows_before_mono(j: int, k: int, n: int)
    requires
        0 <= j <= k <= n,
    ensures
        rows_before(j, n) <= rows_before(k, n),
    decreases k,
{
    if k > j {
        lemma_rows_before_mono(j, k - 1, n);
    }
}

/// Lexicographically earlier pairs have earlier rows, and all rows are below `rows_before(n, n)`.
proof fn lemma_pair_row_order(a2: int, b2: int, a: int, b: int, n: int)
    requires
        0 <= a2 <= b2 < n,
        0 <= a <= b < n,
        a2 < a || (a2 == a && b2 < b),
    ensures
        pair_row(a2, b2, n) < pair_row(a, b, n),
{
    if a2 < a {
        lemma_rows_before_mono(a2 + 1, a, n);
        assert(rows_before(a2 + 1, n) == rows_before(a2, n) + (n - a2));
    }
}

/// Every pair row lies below `rows_before(n, n)`.
proof fn lemma_pair_row_bound(a: int, b: int, n: int)
    requires
        0 <= a <= b < n,
    ensures
        0 <= pair_row(a, b, n) < rows_before(n, n),
{
    lemma_rows_before_mono(a + 1, n, n);
    lemma_rows_before_mono(0, a, n);
    assert(rows_before(a + 1, n) == rows_before(a, n) + (n - a));
}

/// `p` holds at row `pair_row(a, b, n)` the value `f(a, b, col)` for every pair
/// `a ≤ b < n` and column `col < cols`.
pub open spec fn pair_rows_hold(p: DenseMatrix<i64>, n: int, cols: int, f: spec_fn(int, int, int) -> int) -> bool {
    &&& p.wf()
    &&& 2 * p.rows_spec() == n * (n + 1)
    &&& p.cols_spec() == cols
    &&& forall|a: int, b: int, col: int| 0 <= a <= b < n && 0 <= col < cols
        ==> #[trigger] p.at(pair_row(a, b, n), col) as int == f(a, b, col)
}

/// The `m(m−1)/2 × (m−1)` pair-relations matrix: the row of the pair
/// `(a, b)`, `a ≤ b`, is `(U[a] + U[b] − U[k − 1]) / m` with `k = (a + b + 2) mod m`.
pub fn u_pair_relations(m: usize) -> (p: DenseMatrix<i64>)
    requires
        matrix_size_ok(m as int),
        (m - 1) * m / 2 * (m - 1) <= usize::MAX,
    ensures
        pair_rows_hold(p, m - 1, m - 1, |a: int, b: int, col: int| pair_entry(m as int, a, b, col)),
        forall|a: int, b: int, col: int| 0 <= a <= b < m - 1 && 0 <= col < m - 1
            ==> m * #[trigger] p.at(pair_row(a, b, m - 1), col) == pair_unscaled(m as int, a, b, col),
{
    let n = m - 1;
    let u_mat = u_matrix(m);
    proof {
        assert(m <= 0x1_0000_0001) by (nonlinear_arith) requires (m - 1) * (m - 1) <= usize::MAX, m >= 2, usize::MAX <= u64::MAX;
        lemma_rows_before_closed(n as int, n as int);
        let t = rows_before(n as int, n as int);
        assert(n * (n + 1) / 2 == t) by (nonlinear_arith) requires 2 * t == n * (2 * n - n + 1);
        assert(n * (n + 1) <= usize::MAX) by (nonlinear_arith)
            requires n * (n + 1) == 2 * t, t * n <= usize::MAX, n >= 1;
        assert(2 * n + 2 <= usize::MAX) by (nonlinear_arith)
            requires n * (n + 1) <= usize::MAX, n >= 1, usize::MAX >= 0xffff_ffff;
    }
    let mi = m as i64;
    let total_rows = n * (n + 1) / 2;
    let mut data: Vec<i64> = Vec::new();
    let mut row_idx: usize = 0;
    let mut a: usize = 0;
    while a < n
        invariant
            n == m - 1,
            m >= 2,
            m <= 0x1_0000_0001,
            mi == m,
            is_u(u_mat, m as int),
            total_rows == rows_before(n as int, n as int),
            total_rows * n <= usize::MAX,
            2 * n + 2 <= usize::MAX,
            a <= n,
            row_idx == rows_before(a as int, n as int),
            data@.len() == row_idx * n,
            forall|a2: int, b2: int, c2: int| 0 <= a2 <= b2 < n && 0 <= c2 < n && a2 < a
                ==> data@[pair_row(a2, b2, n as int) * n + c2] as int == #[trigger] pair_entry(m as int, a2, b2, c2),
        decreases n - a,
    {
        let mut b: usize = a;
        while b < n
            invariant
                n == m - 1,
                m >= 2,
                m <= 0x1_0000_0001,
                mi == m,
                is_u(u_mat, m as int),
                total_rows == rows_before(n as int, n as int),
                total_rows * n <= usize::MAX,
                2 * n + 2 <= usize::MAX,
                a < n,
                a <= b <= n,
                row_idx == pair_row(a as int, b as int, n as int),
                data@.len() == row_idx * n,
                forall|a2: int, b2: int, c2: int| 0 <= a2 <= b2 < n && 0 <= c2 < n && (a2 < a || (a2 == a && b2 < b))
                    ==> data@[pair_row(a2, b2, n as int) * n + c2] as int == #[trigger] pair_entry(m as int, a2, b2, c2),
            decreases n - b,
        {
            let sum = (a + 1) + (b + 1);
            let k = if sum >= m { sum - m } else { sum };
            proof {
                lemma_pair_row_bound(a as int, b as int, n as int);
                assert((row_idx + 1) * n <= total_rows * n) by (nonlinear_arith) requires row_idx + 1 <= total_rows, n >= 0;
                assert((row_idx + 1) * n == row_idx * n + n) by (nonlinear_arith);
            }
            let mut col: usize = 0;
            while col < n
                invariant
                    n == m - 1,
                    m >= 2,
                    m <= 0x1_0000_0001,
                    mi == m,
                    is_u(u_mat, m as int),
                    total_rows * n <= usize::MAX,
                    a < n,
                    a <= b < n,
                    k == pair_k(m as int, a as int, b as int),
                    row_idx == pair_row(a as int, b as int, n as int),
                    (row_idx + 1) * n <= total_rows * n,
                    (row_idx + 1) * n == row_idx * n + n,
                    col <= n,
                    data@.len() == row_idx * n + col,
                    forall|c2: int| 0 <= c2 < col ==> data@[row_idx * n + c2] as int == #[trigger] pair_entry(m as int, a as int, b as int, c2),
                    forall|a2: int, b2: int, c2: int| 0 <= a2 <= b2 < n && 0 <= c2 < n && (a2 < a || (a2 == a && b2 < b))
                        ==> data@[pair_row(a2, b2, n as int) * n + c2] as int == #[trigger] pair_entry(m as int, a2, b2, c2),
                decreases n - col,
            {
                proof {
                    assert(u_mat.at(a as int, col as int) as int == u_entry(m as int, a as int, col as int));
                    assert(u_mat.at(b as int, col as int) as int == u_entry(m as int, b as int, col as int));
                    lemma_pair_unscaled(m as int, a as int, b as int, col as int);
                }
                let mut v = u_mat[(a, col)] + u_mat[(b, col)];
                if k != 0 {
                    proof {
                        assert(u_mat.at(k - 1, col as int) as int == u_entry(m as int, k - 1, col as int));
                    }
                    v = v - u_mat[(k - 1, col)];
                }
                proof {
                    lemma_quotient_of_multiple(pair_entry(m as int, a as int, b as int, col as int), m as int);
                }
                let x = crate::determinant::exact_div(v, mi);
                let ghost before = data@;
                data.push(x);
                proof {
                    assert forall|a2: int, b2: int, c2: int| 0 <= a2 <= b2 < n && 0 <= c2 < n && (a2 < a || (a2 == a && b2 < b))
                        implies data@[pair_row(a2, b2, n as int) * n + c2] as int == #[trigger] pair_entry(m as int, a2, b2, c2) by {
                        lemma_pair_row_order(a2, b2, a as int, b as int, n as int);
                        let pr2 = pair_row(a2, b2, n as int);
                        lemma_pair_row_bound(a2, b2, n as int);
                        assert(0 <= pr2 * n + c2 < row_idx * n) by (nonlinear_arith)
                            requires 0 <= pr2 < row_idx, 0 <= c2 < n;
                        assert(data@[pr2 * n + c2] == before[pr2 * n + c2]);
                    }
                    assert forall|c2: int| 0 <= c2 < col + 1 implies data@[row_idx * n + c2] as int == #[trigger] pair_entry(m as int, a as int, b as int, c2) by {
                        if c2 < col {
                            assert(data@[row_idx * n + c2] == before[row_idx * n + c2]);
                        }
                    }
                }
                col = col + 1;
            }
            proof {
                assert forall|a2: int, b2: int, c2: int| 0 <= a2 <= b2 < n && 0 <= c2 < n && (a2 < a || (a2 == a && b2 < b + 1))
                    implies data@[pair_row(a2, b2, n as int) * n + c2] as int == #[trigger] pair_entry(m as int, a2, b2, c2) by {
                    if a2 == a && b2 == b {
                        assert(data@[row_idx * n + c2] as int == pair_entry(m as int, a as int, b as int, c2));
                    }
                }
            }
            row_idx = row_idx + 1;
            b = b + 1;
        }
        proof {
            assert(rows_before(a + 1, n as int) == rows_before(a as int, n as int) + (n - a));
        }
        a = a + 1;
    }
    let p = DenseMatrix::from_vec(total_rows, n, data);
    proof {
        lemma_rows_before_closed(n as int, n as int);
    }
    assert forall|a: int, b: int, col: int| 0 <= a <= b < n && 0 <= col < n
        implies #[trigger] p.at(pair_row(a, b, n as int), col) as int == pair_entry(m as int, a, b, col) by {
        assert(pair_entry(m as int, a, b, col) == pair_entry(m as int, a, b, col));
    }
    assert forall|a: int, b: int, col: int| 0 <= a <= b < n && 0 <= col < n
        implies m * #[trigger] p.at(pair_row(a, b, n as int), col) == pair_unscaled(m as int, a, b, col) by {
        lemma_pair_unscaled(m as int, a, b, col);
        assert(p.at(pair_row(a, b, n as int), col) as int == pair_entry(m as int, a, b, col));
    }
    p
}

/// Entry of the pair-relations matrix in `(r, n, 1)` coordinates: columns
/// `0..m−1` are `r_1..r_{m−1}`, columns `m−1..2m−2` are `n_1..n_{m−1}`, and
/// the last column is the constant. The row of the pair `(a, b)` has `+1` at
/// `r_a, r_b, n_a, n_b`, `−1` at `r_{k−1}, n_{k−1}` when `k ≠ 0`, and `+1` in
/// the constant column when `a + b + 2 ≥ m`.
pub open spec fn rn_entry(m: int, a: int, b: int, col: int) -> int {
    let n = m - 1;
    let k = pair_k(m, a, b);
    if col < n {
        ind(col == a) + ind(col == b) - ind(k != 0 && col == k - 1)
    } else if col < 2 * n {
        ind(col - n == a) + ind(col - n == b) - ind(k != 0 && col - n == k - 1)
    } else {
        ind(a + b + 2 >= m)
    }
}

/// The `m(m−1)/2 × (2m − 1)` pair-relations matrix in augmented `(r, n, 1)`
/// coordinates (see [`rn_entry`]).
pub fn pair_relations_rn(m: usize) -> (p: DenseMatrix<i64>)
    requires
        matrix_size_ok(m as int),
        (m - 1) * m / 2 * (2 * m - 1) <= usize::MAX,
    ensures
        pair_rows_hold(p, m - 1, 2 * m - 1, |a: int, b: int, col: int| rn_entry(m as int, a, b, col)),
{
    let n = m - 1;
    proof {
        assert(2 * n + 1 <= usize::MAX) by (nonlinear_arith)
            requires n * n <= usize::MAX, n >= 1, usize::MAX >= 0xffff_ffff;
    }
    let cols = 2 * n + 1;
    proof {
        assert(m <= 0x1_0000_0001) by (nonlinear_arith) requires (m - 1) * (m - 1) <= usize::MAX, m >= 2, usize::MAX <= u64::MAX;
        lemma_rows_before_closed(n as int, n as int);
        let t = rows_before(n as int, n as int);
        assert(n * (n + 1) / 2 == t) by (nonlinear_arith) requires 2 * t == n * (2 * n - n + 1);
        assert(n * (n + 1) <= usize::MAX) by (nonlinear_arith)
            requires n * (n + 1) == 2 * t, t * (2 * n + 1) <= usize::MAX, n >= 1;
        assert(2 * n + 2 <= usize::MAX) by (nonlinear_arith)
            requires n * (n + 1) <= usize::MAX, n >= 1, usize::MAX >= 0xffff_ffff;
    }
    let total_rows = n * (n + 1) / 2;
    let mut data: Vec<i64> = Vec::new();
    let mut row_idx: usize = 0;
    let mut a: usize = 0;
    while a < n
        invariant
            n == m - 1,
            m >= 2,
            m <= 0x1_0000_0001,
            cols == 2 * n + 1,
            total_rows == rows_before(n as int, n as int),
            total_rows * cols <= usize::MAX,
            2 * n + 2 <= usize::MAX,
            a <= n,
            row_idx == rows_before(a as int, n as int),
            data@.len() == row_idx * cols,
            forall|a2: int, b2: int, c2: int| 0 <= a2 <= b2 < n && 0 <= c2 < cols && a2 < a
                ==> data@[pair_row(a2, b2, n as int) * cols + c2] as int == #[trigger] rn_entry(m as int, a2, b2, c2),
        decreases n - a,
    {
        let mut b: usize = a;
        while b < n
            invariant
                n == m - 1,
                m >= 2,
                m <= 0x1_0000_0001,
                    cols == 2 * n + 1,
                total_rows == rows_before(n as int, n as int),
                total_rows * cols <= usize::MAX,
                2 * n + 2 <= usize::MAX,
                a < n,
                a <= b <= n,
                row_idx == pair_row(a as int, b as int, n as int),
                data@.len() == row_idx * cols,
                forall|a2: int, b2: int, c2: int| 0 <= a2 <= b2 < n && 0 <= c2 < cols && (a2 < a || (a2 == a && b2 < b))
                    ==> data@[pair_row(a2, b2, n as int) * cols + c2] as int == #[trigger] rn_entry(m as int, a2, b2, c2),
            decreases n - b,
        {
            let sum = (a + 1) + (b + 1);
            let k = if sum >= m { sum - m } else { sum };
            proof {
                lemma_pair_row_bound(a as int, b as int, n as int);
                assert((row_idx + 1) * cols <= total_rows * cols) by (nonlinear_arith) requires row_idx + 1 <= total_rows, cols >= 0;
                assert((row_idx + 1) * cols == row_idx * cols + cols) by (nonlinear_arith);
            }
            let mut col: usize = 0;
            while col < cols
                invariant
                    n == m - 1,
                    m >= 2,
                    m <= 0x1_0000_0001,
                            cols == 2 * n + 1,
                    total_rows * cols <= usize::MAX,
                    a < n,
                    a <= b < n,
                    k == pair_k(m as int, a as int, b as int),
                    sum == a + b + 2,
                    row_idx == pair_row(a as int, b as int, n as int),
                    (row_idx + 1) * cols <= total_rows * cols,
                    (row_idx + 1) * cols == row_idx * cols + cols,
                    col <= cols,
                    data@.len() == row_idx * cols + col,
                    forall|c2: int| 0 <= c2 < col ==> data@[row_idx * cols + c2] as int == #[trigger] rn_entry(m as int, a as int, b as int, c2),
                    forall|a2: int, b2: int, c2: int| 0 <= a2 <= b2 < n && 0 <= c2 < cols && (a2 < a || (a2 == a && b2 < b))
                        ==> data@[pair_row(a2, b2, n as int) * cols + c2] as int == #[trigger] rn_entry(m as int, a2, b2, c2),
                decreases cols - col,
            {
                let x: i64 = if col < n {
                    (if col == a { 1 } else { 0 }) + (if col == b { 1 } else { 0 }) - (if k != 0 && col + 1 == k { 1 } else { 0 })
                } else if col < 2 * n {
                    let c = col - n;
                    (if c == a { 1 } else { 0 }) + (if c == b { 1 } else { 0 }) - (if k != 0 && c + 1 == k { 1 } else { 0 })
                } else {
                    if sum >= m { 1 } else { 0 }
                };
                let ghost before = data@;
                data.push(x);
                proof {
                    assert forall|a2: int, b2: int, c2: int| 0 <= a2 <= b2 < n && 0 <= c2 < cols && (a2 < a || (a2 == a && b2 < b))
                        implies data@[pair_row(a2, b2, n as int) * cols + c2] as int == #[trigger] rn_entry(m as int, a2, b2, c2) by {
                        lemma_pair_row_order(a2, b2, a as int, b as int, n as int);
                        let pr2 = pair_row(a2, b2, n as int);
                        lemma_pair_row_bound(a2, b2, n as int);
                        assert(0 <= pr2 * cols + c2 < row_idx * cols) by (nonlinear_arith)
                            requires 0 <= pr2 < row_idx, 0 <= c2 < cols;
                        assert(data@[pr2 * cols + c2] == before[pr2 * cols + c2]);
                    }
                    assert forall|c2: int| 0 <= c2 < col + 1 implies data@[row_idx * cols + c2] as int == #[trigger] rn_entry(m as int, a as int, b as int, c2) by {
                        if c2 < col {
                            assert(data@[row_idx * cols + c2] == before[row_idx * cols + c2]);
                        }
                    }
                }
                col = col + 1;
            }
            proof {
                assert forall|a2: int, b2: int, c2: int| 0 <= a2 <= b2 < n && 0 <= c2 < cols && (a2 < a || (a2 == a && b2 < b + 1))
                    implies data@[pair_row(a2, b2, n as int) * cols + c2] as int == #[trigger] rn_entry(m as int, a2, b2, c2) by {
                    if a2 == a && b2 == b {
                        assert(data@[row_idx * cols + c2] as int == rn_entry(m as int, a as int, b as int, c2));
                    }
                }
            }
            row_idx = row_idx + 1;
            b = b + 1;
        }
        proof {
            assert(rows_before(a + 1, n as int) == rows_before(a as int, n as int) + (n - a));
        }
        a = a + 1;
    }
    let p = DenseMatrix::from_vec(total_rows, cols, data);
    proof {
        lemma_rows_before_closed(n as int, n as int);
    }
    assert forall|a: int, b: int, col: int| 0 <= a <= b < n && 0 <= col < cols
        implies #[trigger] p.at(pair_row(a, b, n as int), col) as int == rn_entry(m as int, a, b, col) by {
        assert(rn_entry(m as int, a, b, col) == rn_entry(m as int, a, b, col));
    }
    p
}

/// `quotient(d · t, d) = t` for `d > 0`.
proof fn lemma_quotient_of_multiple(t: int, d: int)
    requires
        d > 0,
    ensures
        crate::determinant::quotient(d * t, d) == t,
{
    let x = d * t;
    if t >= 0 {
        assert(x >= 0) by (nonlinear_arith) requires d > 0, t >= 0, x == d * t;
        assert(x / d == t) by (nonlinear_arith) requires d > 0, x == d * t;
    } else {
        assert(x < 0) by (nonlinear_arith) requires d > 0, t < 0, x == d * t;
        assert(-x == d * (-t)) by (nonlinear_arith) requires x == d * t;
        assert((-x) / d == -t) by (nonlinear_arith) requires d > 0, -x == d * (-t);
    }
}


/// `Σ_{l<k} V(m)[a][l] · U(m)[l][b]`.
pub open spec fn vu_sum(m: int, a: int, b: int, k: int) -> int
    decreases k,
{
    if k <= 0 {
        0
    } else {
        vu_sum(m, a, b, k - 1) + v_entry(m, a, k - 1) * u_entry(m, k - 1, b)
    }
}

/// Terms where row `a` of `V(m)` is zero add nothing.
proof fn lemma_vu_sum_skip(m: int, a: int, b: int, j: int, k: int)
    requires
        0 <= j <= k,
        forall|l: int| j <= l < k ==> #[trigger] v_entry(m, a, l) == 0,
    ensures
        vu_sum(m, a, b, k) == vu_sum(m, a, b, j),
    decreases k,
{
    if k > j {
        lemma_vu_sum_skip(m, a, b, j, k - 1);
        assert(v_entry(m, a, k - 1) == 0);
    }
}

/// `V(m) · U(m) = m · I`, entry by entry.
pub proof fn lemma_vu_entry(m: int, a: int, b: int)
    requires
        m >= 2,
        0 <= a < m - 1,
        0 <= b < m - 1,
    ensures
        vu_sum(m, a, b, m - 1) == if a == b { m } else { 0 },
{
    let n = m - 1;
    if n == 1 {
        assert(vu_sum(m, a, b, 0) == 0);
        assert(vu_sum(m, a, b, 1) == v_entry(m, 0, 0) * u_entry(m, 0, b));
    } else if a == 0 {
        lemma_vu_sum_skip(m, a, b, 2, n);
        assert(vu_sum(m, a, b, 0) == 0);
        assert(vu_sum(m, a, b, 1) == 2 * u_entry(m, 0, b));
        assert(vu_sum(m, a, b, 2) == vu_sum(m, a, b, 1) - u_entry(m, 1, b));
    } else if a < n - 1 {
        lemma_vu_sum_skip(m, a, b, a + 2, n);
        lemma_vu_sum_skip(m, a, b, 1, a);
        assert(vu_sum(m, a, b, 0) == 0);
        assert(v_entry(m, a, 0) == 1);
        assert(vu_sum(m, a, b, 1) == u_entry(m, 0, b));
        assert(vu_sum(m, a, b, a + 1) == vu_sum(m, a, b, a) + u_entry(m, a, b));
        assert(vu_sum(m, a, b, a + 2) == vu_sum(m, a, b, a + 1) - u_entry(m, a + 1, b));
    } else {
        lemma_vu_sum_skip(m, a, b, 1, n - 1);
        assert(vu_sum(m, a, b, 0) == 0);
        assert(v_entry(m, a, 0) == 1);
        assert(vu_sum(m, a, b, 1) == u_entry(m, 0, b));
        assert(vu_sum(m, a, b, n) == vu_sum(m, a, b, n - 1) + u_entry(m, n - 1, b));
    }
}

/// The product of matrices given entrywise by V(m) and U(m) runs through [`vu_sum`].
proof fn lemma_dot_is_vu_sum(v: DenseMatrix<i64>, u: DenseMatrix<i64>, m: int, a: int, b: int, k: int)
    requires
        is_v(v, m),
        is_u(u, m),
        0 <= a < m - 1,
        0 <= b < m - 1,
        0 <= k <= m - 1,
    ensures
        crate::matrix::dot_prefix(v, u, a, b, k) == vu_sum(m, a, b, k),
    decreases k,
{
    if k > 0 {
        lemma_dot_is_vu_sum(v, u, m, a, b, k - 1);
        assert(v.at(a, k - 1) as int == v_entry(m, a, k - 1));
        assert(u.at(k - 1, b) as int == u_entry(m, k - 1, b));
    }
}

/// `V(m) · U(m) = m · I`: the product of the matrices built by [`v_matrix`]
/// and [`u_matrix`] has `m` on the diagonal and 0 elsewhere.
pub proof fn lemma_v_times_u(v: DenseMatrix<i64>, u: DenseMatrix<i64>, p: DenseMatrix<i64>, m: int)
    requires
        matrix_size_ok(m),
        is_v(v, m),
        is_u(u, m),
        crate::matrix::is_product(v, u, p),
    ensures
        forall|a: int, b: int| 0 <= a < m - 1 && 0 <= b < m - 1 ==> #[trigger] p.at(a, b) == if a == b { m } else { 0 },
{
    assert forall|a: int, b: int| 0 <= a < m - 1 && 0 <= b < m - 1 implies #[trigger] p.at(a, b) == if a == b { m } else { 0 } by {
        lemma_dot_is_vu_sum(v, u, m, a, b, m - 1);
        lemma_vu_entry(m, a, b);
    }
}

/// The block form of `L(m) + U(m)`: `U(m − 1)` in the top-left block, the
/// column `(1, …, m − 2)` on the right, zeros then `m − 1` in the bottom row.
pub open spec fn l_plus_u_block(m: int, a: int, b: int) -> int {
    let n = m - 1;
    if a < n - 1 && b < n - 1 {
        u_entry(m - 1, a, b)
    } else if a < n - 1 {
        a + 1
    } else if b < n - 1 {
        0
    } else {
        m - 1
    }
}

/// `L(m) + U(m)` has the block form [`l_plus_u_block`].
pub proof fn lemma_l_plus_u(l: DenseMatrix<i64>, u: DenseMatrix<i64>, s: DenseMatrix<i64>, m: int)
    requires
        matrix_size_ok(m),
        is_l(l, m),
        is_u(u, m),
        crate::matrix::is_sum(l, u, s),
    ensures
        forall|a: int, b: int| 0 <= a < m - 1 && 0 <= b < m - 1 ==> #[trigger] s.at(a, b) == l_plus_u_block(m, a, b),
{
    let n = m - 1;
    assert forall|a: int, b: int| 0 <= a < n && 0 <= b < n implies #[trigger] s.at(a, b) == l_plus_u_block(m, a, b) by {
        lemma_flat_bound(n, n, a, b);
        assert(l.at(a, b) as int == l_entry(a, b));
        assert(u.at(a, b) as int == u_entry(m, a, b));
    }
}

/// `C64` holds the entries of `C` as `i64`s.
pub open spec fn is_widened(c: DenseMatrix<usize>, c64: DenseMatrix<i64>) -> bool {
    &&& c64.wf()
    &&& c64.rows_spec() == c.rows_spec()
    &&& c64.cols_spec() == c.cols_spec()
    &&& c64.entries().len() == c.entries().len()
    &&& forall|k: int| 0 <= k < c64.entries().len() ==> #[trigger] c64.entries()[k] as int == c.entries()[k] as int
}

/// The general product `U(m) · C` runs through [`u_dot`].
proof fn lemma_dot_is_u_dot(u: DenseMatrix<i64>, c: DenseMatrix<usize>, c64: DenseMatrix<i64>, m: int, a: int, b: int, k: int)
    requires
        c.wf(),
        c.rows_spec() == m - 1,
        c.cols_spec() == m - 1,
        is_u(u, m),
        is_widened(c, c64),
        0 <= a < m - 1,
        0 <= b < m - 1,
        0 <= k <= m - 1,
    ensures
        crate::matrix::dot_prefix(u, c64, a, b, k) == u_dot(c, m, a, b, k),
    decreases k,
{
    if k > 0 {
        lemma_dot_is_u_dot(u, c, c64, m, a, b, k - 1);
        lemma_flat_bound(m - 1, m - 1, k - 1, b);
        assert(u.at(a, k - 1) as int == u_entry(m, a, k - 1));
        assert(c64.at(k - 1, b) as int == c.at(k - 1, b) as int);
    }
}

/// [`u_times_c_red`] agrees with the general product `U(m) · C` computed by
/// `mat_mul` on the widened matrix.
pub proof fn lemma_u_times_c_red_is_product(
    c: DenseMatrix<usize>,
    c64: DenseMatrix<i64>,
    u: DenseMatrix<i64>,
    p: DenseMatrix<i64>,
    fast: DenseMatrix<i64>,
)
    requires
        c.wf(),
        c.rows_spec() == c.cols_spec(),
        c.rows_spec() >= 1,
        is_u(u, c.rows_spec() + 1int),
        is_widened(c, c64),
        crate::matrix::is_product(u, c64, p),
        fast.wf(),
        fast.rows_spec() == c.rows_spec(),
        fast.cols_spec() == c.rows_spec(),
        forall|a: int, b: int| 0 <= a < c.rows_spec() && 0 <= b < c.rows_spec()
            ==> #[trigger] fast.at(a, b) as int == u_dot(c, c.rows_spec() + 1int, a, b, c.rows_spec() as int),
    ensures
        crate::matrix::same_matrix(fast, p),
{
    let n = c.rows_spec() as int;
    assert forall|a: int, b: int| 0 <= a < n && 0 <= b < n implies #[trigger] fast.at(a, b) == p.at(a, b) by {
        lemma_dot_is_u_dot(u, c, c64, n + 1, a, b, n);
    }
    crate::matrix::lemma_entries_ext(fast, p);
}


/// `|V(m)[a][0]| + … + |V(m)[a][k − 1]|`.
pub open spec fn v_abs_sum(m: int, a: int, k: int) -> int
    decreases k,
{
    if k <= 0 {
        0
    } else {
        v_abs_sum(m, a, k - 1) + crate::determinant::abs(v_entry(m, a, k - 1))
    }
}

/// A row of `V(m)` has at most three nonzero entries, of total size at most 3.
proof fn lemma_v_abs_sum(m: int, a: int, k: int)
    requires
        m >= 2,
        0 <= a < m - 1,
        0 <= k <= m - 1,
    ensures
        v_abs_sum(m, a, k) == if a == 0 {
            (if k >= 1 { 2int } else { 0 }) + (if k >= 2 { 1int } else { 0 })
        } else if a < m - 2 {
            (if k >= 1 { 1int } else { 0 }) + (if k >= a + 1 { 1int } else { 0 }) + (if k >= a + 2 { 1int } else { 0 })
        } else {
            (if k >= 1 { 1int } else { 0 }) + (if k >= m - 1 { 1int } else { 0 })
        },
    decreases k,
{
    if k > 0 {
        lemma_v_abs_sum(m, a, k - 1);
    }
}

/// The partial sums of a row of `V(m)` against a column of `U(m)` stay within
/// `m` times the size of the row so far.
proof fn lemma_vu_prefix_bound(v: DenseMatrix<i64>, u: DenseMatrix<i64>, m: int, a: int, b: int, k: int)
    requires
        is_v(v, m),
        is_u(u, m),
        m >= 2,
        0 <= a < m - 1,
        0 <= b < m - 1,
        0 <= k <= m - 1,
    ensures
        crate::determinant::abs(crate::matrix::dot_prefix(v, u, a, b, k)) <= m * v_abs_sum(m, a, k),
    decreases k,
{
    if k > 0 {
        lemma_vu_prefix_bound(v, u, m, a, b, k - 1);
        let x = v.at(a, k - 1) as int;
        let y = u.at(k - 1, b) as int;
        assert(x == v_entry(m, a, k - 1));
        assert(y == u_entry(m, k - 1, b));
        assert(crate::determinant::abs(y) <= m);
        let ax = crate::determinant::abs(x);
        assert(crate::determinant::abs(x * y) <= m * ax) by (nonlinear_arith)
            requires crate::determinant::abs(y) <= m, ax == crate::determinant::abs(x), m >= 0;
        assert(m * v_abs_sum(m, a, k) == m * v_abs_sum(m, a, k - 1) + m * ax) by (nonlinear_arith)
            requires v_abs_sum(m, a, k) == v_abs_sum(m, a, k - 1) + ax;
    }
}

/// `V(m) · U(m)` can be computed with [`DenseMatrix::mat_mul`]: its size fits
/// and every product and partial sum stays within `3m` of zero, well inside
/// an `i64`.
pub proof fn lemma_v_u_product_fits(v: DenseMatrix<i64>, u: DenseMatrix<i64>, m: int)
    requires
        matrix_size_ok(m),
        is_v(v, m),
        is_u(u, m),
    ensures
        v.rows_spec() * u.cols_spec() <= usize::MAX,
        crate::matrix::product_fits(v, u),
{
    assert(m <= 0x1_0000_0001) by (nonlinear_arith)
        requires (m - 1) * (m - 1) <= usize::MAX, usize::MAX <= 0xffff_ffff_ffff_ffff, m >= 2;
    assert forall|i: int, j: int, k: int| 0 <= i < v.rows_spec() && 0 <= j < u.cols_spec() && 0 <= k <= v.cols_spec()
        implies crate::matrix::fits64(#[trigger] crate::matrix::dot_prefix(v, u, i, j, k)) by {
        lemma_vu_prefix_bound(v, u, m, i, j, k);
        lemma_v_abs_sum(m, i, k);
        assert(m * v_abs_sum(m, i, k) <= 3 * m) by (nonlinear_arith) requires v_abs_sum(m, i, k) <= 3, m >= 0;
    }
    assert forall|i: int, j: int, k: int| 0 <= i < v.rows_spec() && 0 <= j < u.cols_spec() && 0 <= k < v.cols_spec()
        implies crate::matrix::fits64(#[trigger] v.at(i, k) * #[trigger] u.at(k, j)) by {
        let x = v.at(i, k) as int;
        let y = u.at(k, j) as int;
        assert(x == v_entry(m, i, k));
        assert(y == u_entry(m, k, j));
        assert(-2 <= x <= 2);
        assert(-m <= y <= m);
        assert(-2 * m <= x * y <= 2 * m) by (nonlinear_arith) requires -2 <= x <= 2, -m <= y <= m, m >= 0;
    }
}

} // verus!
