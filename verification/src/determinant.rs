//! Determinant and integer inverse of square `i64` matrices.
//!
//! The determinant is the cofactor (Laplace) expansion along the first row;
//! the inverse is the adjugate divided entrywise by the determinant, which
//! over the integers exists exactly when every cofactor is divisible by the
//! determinant (for a unimodular matrix, always).
use vstd::prelude::*;
use crate::matrix::{fits64, lemma_flat_bound, DenseMatrix};

verus! {

/// The rows of an `i64` matrix as integer sequences.
pub open spec fn rows_of(a: DenseMatrix<i64>) -> Seq<Seq<int>> {
    Seq::new(a.rows_spec(), |i: int| Seq::new(a.cols_spec(), |j: int| a.at(i, j) as int))
}

/// The matrix with row `r` and column `c` deleted.
pub open spec fn minor(s: Seq<Seq<int>>, r: int, c: int) -> Seq<Seq<int>> {
    s.remove(r).map_values(|row: Seq<int>| row.remove(c))
}

/// `(−1)^k`.
pub open spec fn sign(k: int) -> int {
    if k % 2 == 0 { 1 } else { -1 }
}

/// The determinant, by expansion along the first row (1 for the empty matrix).
pub open spec fn det_spec(s: Seq<Seq<int>>) -> int
    decreases s.len(), s.len() + 1,
{
    if s.len() == 0 {
        1
    } else if s.len() == 1 {
        s[0][0]
    } else {
        laplace(s, s.len() as int)
    }
}

/// The first `k` terms of the expansion along the first row:
/// `Σ_{j<k} (−1)^j · s[0][j] · det(minor(s, 0, j))`.
pub open spec fn laplace(s: Seq<Seq<int>>, k: int) -> int
    decreases s.len(), k,
{
    if k <= 0 || s.len() <= 1 {
        0
    } else {
        laplace(s, k - 1) + sign(k - 1) * (s[0][k - 1] * det_spec(minor(s, 0, k - 1)))
    }
}

/// Every product and partial sum of the expansion, at every level, fits in an `i64`.
pub open spec fn det_fits(s: Seq<Seq<int>>) -> bool
    decreases s.len(),
{
    if s.len() <= 1 {
        true
    } else {
        forall|j: int| 0 <= j < s.len() ==> {
            &&& det_fits(#[trigger] minor(s, 0, j))
            &&& fits64(s[0][j] * det_spec(minor(s, 0, j)))
            &&& fits64(laplace(s, j + 1))
        }
    }
}

/// The cofactor `(−1)^(i+j) · det(minor(s, i, j))`.
pub open spec fn cofactor_spec(s: Seq<Seq<int>>, i: int, j: int) -> int {
    sign(i + j) * det_spec(minor(s, i, j))
}

/// `|x|`.
pub open spec fn abs(x: int) -> int {
    if x < 0 { -x } else { x }
}

/// `d` divides `x`: `|x|` is a multiple of `|d|`.
pub open spec fn divides(d: int, x: int) -> bool {
    abs(x) % abs(d) == 0
}

/// The quotient `x / d` with the sign of `x · d` and magnitude `|x| / |d|`.
pub open spec fn quotient(x: int, d: int) -> int {
    if (x < 0) == (d < 0) { abs(x) / abs(d) } else { -(abs(x) / abs(d)) }
}

/// An integer inverse exists: the determinant is nonzero and divides every cofactor.
pub open spec fn integer_invertible(s: Seq<Seq<int>>) -> bool {
    &&& det_spec(s) != 0
    &&& forall|i: int, j: int| 0 <= i < s.len() && 0 <= j < s.len() ==> #[trigger] divides(det_spec(s), cofactor_spec(s, i, j))
}

/// The determinant and every cofactor can be computed in `i64`, and no
/// cofactor is `i64::MIN`.
pub open spec fn inverse_fits(s: Seq<Seq<int>>) -> bool {
    &&& det_fits(s)
    &&& forall|i: int, j: int| 0 <= i < s.len() && 0 <= j < s.len() ==> {
        &&& det_fits(#[trigger] minor(s, i, j))
        &&& i64::MIN < det_spec(minor(s, i, j)) <= i64::MAX
    }
}

/// `inv` is the adjugate of `s` divided by `det(s)`: `inv(j, i) = C(i, j) / det`.
pub open spec fn is_integer_inverse(s: Seq<Seq<int>>, inv: DenseMatrix<i64>) -> bool {
    &&& inv.wf()
    &&& inv.rows_spec() == s.len()
    &&& inv.cols_spec() == s.len()
    &&& forall|i: int, j: int| 0 <= i < s.len() && 0 <= j < s.len()
        ==> #[trigger] inv.at(j, i) == quotient(cofactor_spec(s, i, j), det_spec(s))
}

/// Skipping index `d`: the `i`-th index different from `d`.
pub open spec fn skip(i: int, d: int) -> int {
    if i < d { i } else { i + 1 }
}

/// `|x|` of an `i64`, as a `u64`.
fn magnitude(x: i64) -> (m: u64)
    ensures
        m == abs(x as int),
{
    if x >= 0 {
        x as u64
    } else {
        let y: i64 = -(x + 1);
        (y as u64) + 1
    }
}

/// `d` divides `x`.
fn is_divisible_by(x: i64, d: i64) -> (b: bool)
    requires
        d != 0,
    ensures
        b == divides(d as int, x as int),
{
    magnitude(x) % magnitude(d) == 0
}

/// The quotient of `x` by `d`, with the sign of `x · d`.
pub(crate) fn exact_div(x: i64, d: i64) -> (q: i64)
    requires
        d != 0,
        x > i64::MIN,
    ensures
        q == quotient(x as int, d as int),
{
    let mx = magnitude(x);
    let md = magnitude(d);
    let q = mx / md;
    assert(q <= mx) by (nonlinear_arith) requires md >= 1, q == mx / md;
    if (x < 0) == (d < 0) {
        q as i64
    } else {
        -(q as i64)
    }
}

impl DenseMatrix<i64> {
    /// The square matrix with row `del_row` and column `del_col` deleted.
    fn minor_matrix(&self, del_row: usize, del_col: usize) -> (out: Self)
        requires
            self.wf(),
            self.rows_spec() == self.cols_spec(),
            del_row < self.rows_spec(),
            del_col < self.cols_spec(),
        ensures
            out.wf(),
            out.rows_spec() == self.rows_spec() - 1,
            out.cols_spec() == self.rows_spec() - 1,
            rows_of(out) == minor(rows_of(*self), del_row as int, del_col as int),
    {
        let n = self.nrows();
        let k = n - 1;
        let mut data: Vec<i64> = Vec::new();
        let mut i: usize = 0;
        proof {
            assert(k * k <= n * n) by (nonlinear_arith) requires k < n;
        }
        while i < k
            invariant
                self.wf(),
                n == self.rows_spec(),
                n == self.cols_spec(),
                k == n - 1,
                del_row < n,
                del_col < n,
                k * k <= n * n,
                i <= k,
                data@.len() == i * k,
                forall|q: int| 0 <= q < data@.len() ==> #[trigger] data@[q]
                    == self.at(skip(q / (k as int), del_row as int), skip(q % (k as int), del_col as int)),
            decreases k - i,
        {
            let si = if i < del_row { i } else { i + 1 };
            let mut j: usize = 0;
            while j < k
                invariant
                    self.wf(),
                    n == self.rows_spec(),
                    n == self.cols_spec(),
                    k == n - 1,
                    del_row < n,
                    del_col < n,
                    k * k <= n * n,
                    i < k,
                    si == skip(i as int, del_row as int),
                    j <= k,
                    data@.len() == i * k + j,
                    forall|q: int| 0 <= q < data@.len() ==> #[trigger] data@[q]
                        == self.at(skip(q / (k as int), del_row as int), skip(q % (k as int), del_col as int)),
                decreases k - j,
            {
                let sj = if j < del_col { j } else { j + 1 };
                proof {
                    crate::matrix::lemma_flat_split(k as int, i as int, j as int);
                }
                let x = self.get(si, sj);
                data.push(x);
                j = j + 1;
            }
            assert(data@.len() == (i + 1) * k) by (nonlinear_arith) requires data@.len() == i * k + k;
            i = i + 1;
        }
        let out = DenseMatrix::from_vec(k, k, data);
        let ghost s = rows_of(*self);
        assert forall|i: int, j: int| 0 <= i < k && 0 <= j < k implies #[trigger] out.at(i, j) == self.at(skip(i, del_row as int), skip(j, del_col as int)) by {
            lemma_flat_bound(k as int, k as int, i, j);
            crate::matrix::lemma_flat_split(k as int, i, j);
        }
        assert forall|i: int| 0 <= i < k implies #[trigger] rows_of(out)[i] == minor(s, del_row as int, del_col as int)[i] by {
            let row = s[skip(i, del_row as int)];
            assert(s.remove(del_row as int)[i] == row);
            assert(rows_of(out)[i] =~= row.remove(del_col as int));
        }
        assert(rows_of(out) =~= minor(s, del_row as int, del_col as int));
        out
    }

    /// Determinant of a square matrix, by expansion along the first row.
    pub fn det(&self) -> (d: i64)
        requires
            self.wf(),
            self.rows_spec() == self.cols_spec(),
            det_fits(rows_of(*self)),
        ensures
            d == det_spec(rows_of(*self)),
        decreases self.rows_spec(),
    {
        let n = self.nrows();
        let ghost s = rows_of(*self);
        if n == 0 {
            return 1;
        }
        if n == 1 {
            return self.get(0, 0);
        }
        let mut acc: i64 = 0;
        let mut j: usize = 0;
        while j < n
            invariant
                self.wf(),
                n == self.rows_spec(),
                n == self.cols_spec(),
                n >= 2,
                s == rows_of(*self),
                det_fits(s),
                j <= n,
                acc == laplace(s, j as int),
            decreases n - j,
        {
            let m = self.minor_matrix(0, j);
            assert(det_fits(minor(s, 0, j as int)));
            let d = m.det();
            let a = self.get(0, j);
            proof {
                assert(s[0][j as int] == a);
                assert(fits64(s[0][j as int] * det_spec(minor(s, 0, j as int))));
                assert(fits64(laplace(s, j + 1)));
            }
            let term = a * d;
            if j % 2 == 0 {
                acc = acc + term;
            } else {
                acc = acc - term;
            }
            j = j + 1;
        }
        acc
    }

    /// Cofactor `(−1)^(i+j) · det(minor(i, j))`.
    fn cofactor(&self, i: usize, j: usize) -> (c: i64)
        requires
            self.wf(),
            self.rows_spec() == self.cols_spec(),
            i < self.rows_spec(),
            j < self.cols_spec(),
            det_fits(minor(rows_of(*self), i as int, j as int)),
            i64::MIN < det_spec(minor(rows_of(*self), i as int, j as int)),
        ensures
            c == cofactor_spec(rows_of(*self), i as int, j as int),
    {
        let d = self.minor_matrix(i, j).det();
        assert((i + j) % 2 == 0 <==> i % 2 == j % 2) by (nonlinear_arith);
        if i % 2 == j % 2 {
            d
        } else {
            -d
        }
    }

    /// The integer inverse `adj(A) / det(A)`, or `None` where the determinant
    /// is 0 or does not divide every cofactor.
    #[verifier::spinoff_prover]
    pub fn inverse(&self) -> (r: Option<Self>)
        requires
            self.wf(),
            self.rows_spec() == self.cols_spec(),
            inverse_fits(rows_of(*self)),
        ensures
            r is Some <==> integer_invertible(rows_of(*self)),
            r matches Some(inv) ==> is_integer_inverse(rows_of(*self), inv),
    {
        let n = self.nrows();
        let ghost s = rows_of(*self);
        let d = self.det();
        if d == 0 {
            return None;
        }
        let total = self.as_slice().len();
        let mut adj: Vec<i64> = Vec::new();
        let mut k: usize = 0;
        while k < total
            invariant
                total == n * n,
                self.wf(),
                n == self.rows_spec(),
                n == self.cols_spec(),
                s == rows_of(*self),
                inverse_fits(s),
                k <= n * n,
                d == det_spec(s),
                adj@.len() == k,
                forall|q: int| 0 <= q < k ==> #[trigger] adj@[q] == cofactor_spec(s, q % (n as int), q / (n as int)),
                forall|q: int| 0 <= q < k ==> i64::MIN < #[trigger] adj@[q],
            decreases total - k,
        {
            assert(n > 0) by (nonlinear_arith) requires k < n * n;
            let row = k / n;
            let col = k % n;
            proof {
                assert(row < n) by (nonlinear_arith) requires k < n * n, row == k / n, n > 0;
                assert(col < n) by (nonlinear_arith) requires col == k % n, n > 0;
                assert(det_fits(minor(s, col as int, row as int)));
            }
            let c = self.cofactor(col, row);
            adj.push(c);
            k = k + 1;
        }
        let mut q: usize = 0;
        while q < adj.len()
            invariant
                n == self.rows_spec(),
                s == rows_of(*self),
                n * n == adj@.len(),
                d == det_spec(s),
                d != 0,
                q <= adj@.len(),
                forall|t: int| 0 <= t < adj@.len() ==> #[trigger] adj@[t] == cofactor_spec(s, t % (n as int), t / (n as int)),
                forall|p: int| 0 <= p < q ==> divides(d as int, #[trigger] adj@[p] as int),
            decreases adj@.len() - q,
        {
            if !is_divisible_by(adj[q], d) {
                proof {
                    let i = q % n;
                    let j = q / n;
                    assert(i < n && j < n) by (nonlinear_arith) requires q < n * n, i == q % n, j == q / n, n > 0;
                    assert(!divides(det_spec(s), cofactor_spec(s, i as int, j as int)));
                }
                return None;
            }
            q = q + 1;
        }
        let mut out: Vec<i64> = Vec::new();
        let mut p: usize = 0;
        while p < adj.len()
            invariant
                d != 0,
                p <= adj@.len(),
                out@.len() == p,
                forall|t: int| 0 <= t < adj@.len() ==> i64::MIN < #[trigger] adj@[t],
                forall|t: int| 0 <= t < p ==> #[trigger] out@[t] == quotient(adj@[t] as int, d as int),
            decreases adj@.len() - p,
        {
            out.push(exact_div(adj[p], d));
            p = p + 1;
        }
        let inv = DenseMatrix::from_vec(n, n, out);
        assert(s.len() == n);
        assert forall|i: int, j: int| 0 <= i < n && 0 <= j < n implies #[trigger] inv.at(j, i) == quotient(cofactor_spec(s, i, j), det_spec(s)) by {
            lemma_flat_bound(n as int, n as int, j, i);
            crate::matrix::lemma_flat_split(n as int, j, i);
            assert(adj@[j * n + i] == cofactor_spec(s, i, j));
            assert(inv.at(j, i) == out@[j * n + i]);
        }
        assert forall|i: int, j: int| 0 <= i < n && 0 <= j < n implies #[trigger] divides(det_spec(s), cofactor_spec(s, i, j)) by {
            lemma_flat_bound(n as int, n as int, j, i);
            crate::matrix::lemma_flat_split(n as int, j, i);
            assert(adj@[j * n + i] == cofactor_spec(s, i, j));
        }
        assert(is_integer_inverse(s, inv));
        Some(inv)
    }
}


impl DenseMatrix<i64> {
    /// The determinant when every product and partial sum of its expansion
    /// fits in an `i64` ([`det_fits`]), and `None` otherwise.
    #[verifier::spinoff_prover]
    pub fn det_checked(&self) -> (r: Option<i64>)
        requires
            self.wf(),
            self.rows_spec() == self.cols_spec(),
        ensures
            r is Some <==> det_fits(rows_of(*self)),
            r matches Some(d) ==> d == det_spec(rows_of(*self)),
        decreases self.rows_spec(),
    {
        let n = self.nrows();
        let ghost s = rows_of(*self);
        if n == 0 {
            return Some(1);
        }
        if n == 1 {
            return Some(self.get(0, 0));
        }
        let mut acc: i64 = 0;
        let mut j: usize = 0;
        while j < n
            invariant
                self.wf(),
                n == self.rows_spec(),
                n == self.cols_spec(),
                n >= 2,
                s == rows_of(*self),
                s.len() == n,
                j <= n,
                acc == laplace(s, j as int),
                forall|q: int| 0 <= q < j ==> {
                    &&& det_fits(#[trigger] minor(s, 0, q))
                    &&& fits64(s[0][q] * det_spec(minor(s, 0, q)))
                    &&& fits64(laplace(s, q + 1))
                },
            decreases n - j,
        {
            let m = self.minor_matrix(0, j);
            let d = match m.det_checked() {
                Some(d) => d,
                None => {
                    proof {
                        assert(!det_fits(minor(s, 0, j as int)));
                    }
                    return None;
                },
            };
            let a = self.get(0, j);
            proof {
                assert(s[0][j as int] == a);
            }
            let term = match a.checked_mul(d) {
                Some(t) => t,
                None => {
                    proof {
                        assert(!fits64(s[0][j as int] * det_spec(minor(s, 0, j as int))));
                        assert(0 <= j < s.len());
                    }
                    return None;
                },
            };
            let next = if j % 2 == 0 { acc.checked_add(term) } else { acc.checked_sub(term) };
            match next {
                Some(v) => {
                    acc = v;
                },
                None => {
                    proof {
                        assert(laplace(s, j + 1) == laplace(s, j as int) + sign(j as int) * (s[0][j as int] * det_spec(minor(s, 0, j as int))));
                        assert(term == s[0][j as int] * det_spec(minor(s, 0, j as int)));
                        if j % 2 == 0 {
                            assert(sign(j as int) == 1);
                            assert(laplace(s, j + 1) == acc + term);
                        } else {
                            assert(sign(j as int) == -1);
                            assert(laplace(s, j + 1) == acc - term);
                        }
                        assert(!fits64(laplace(s, j + 1)));
                        assert(0 <= j < s.len());
                    }
                    return None;
                },
            }
            j = j + 1;
        }
        Some(acc)
    }

    /// The integer inverse of [`DenseMatrix::inverse`] when its sizes fit
    /// ([`inverse_fits`]); `None` when they do not.
    pub fn inverse_checked(&self) -> (r: Option<Option<Self>>)
        requires
            self.wf(),
            self.rows_spec() == self.cols_spec(),
        ensures
            r is Some <==> inverse_fits(rows_of(*self)),
            r matches Some(o) ==> (o is Some <==> integer_invertible(rows_of(*self))),
            r matches Some(Some(inv)) ==> is_integer_inverse(rows_of(*self), inv),
    {
        let n = self.nrows();
        let ghost s = rows_of(*self);
        if self.det_checked().is_none() {
            return None;
        }
        let mut i: usize = 0;
        while i < n
            invariant
                self.wf(),
                n == self.rows_spec(),
                n == self.cols_spec(),
                s == rows_of(*self),
                s.len() == n,
                i <= n,
                forall|a: int, b: int| 0 <= a < i && 0 <= b < n ==> {
                    &&& det_fits(#[trigger] minor(s, a, b))
                    &&& i64::MIN < det_spec(minor(s, a, b)) <= i64::MAX
                },
            decreases n - i,
        {
            let mut j: usize = 0;
            while j < n
                invariant
                    self.wf(),
                    n == self.rows_spec(),
                    n == self.cols_spec(),
                    s == rows_of(*self),
                    s.len() == n,
                    i < n,
                    j <= n,
                    forall|a: int, b: int| 0 <= a < i && 0 <= b < n ==> {
                        &&& det_fits(#[trigger] minor(s, a, b))
                        &&& i64::MIN < det_spec(minor(s, a, b)) <= i64::MAX
                    },
                    forall|b: int| 0 <= b < j ==> {
                        &&& det_fits(#[trigger] minor(s, i as int, b))
                        &&& i64::MIN < det_spec(minor(s, i as int, b)) <= i64::MAX
                    },
                decreases n - j,
            {
                match self.minor_matrix(i, j).det_checked() {
                    Some(d) => {
                        if d == i64::MIN {
                            return None;
                        }
                    },
                    None => {
                        return None;
                    },
                }
                j = j + 1;
            }
            i = i + 1;
        }
        Some(self.inverse())
    }
}

} // verus!
