//! Dense row-major matrices: [`DenseMatrix<T>`] stores entry `(i, j)` at
//! `data[i * cols + j]`. Shape accessors and construction work for any entry
//! type; the arithmetic (sum, difference, product, scaling, negation,
//! transpose) is provided for `i64` entries, with every intermediate value
//! required to fit in an `i64`.
use vstd::prelude::*;

verus! {

/// `x` is representable as an `i64`.
pub open spec fn fits64(x: int) -> bool {
    i64::MIN <= x <= i64::MAX
}

/// Row-major dense matrix backed by a `Vec<T>`.
#[derive(Clone, Debug, PartialEq, Eq)]
pub struct DenseMatrix<T> {
    rows: usize,
    cols: usize,
    data: Vec<T>,
}

/// The flat position `i·c + j` of an entry lies in `[0, r·c)`.
pub proof fn lemma_flat_bound(r: int, c: int, i: int, j: int)
    requires
        0 <= i < r,
        0 <= j < c,
    ensures
        0 <= i * c + j < r * c,
{
    assert(0 <= i * c + j < r * c) by (nonlinear_arith) requires 0 <= i < r, 0 <= j < c;
}

/// Row and column are recovered from a flat position by division.
pub proof fn lemma_flat_split(c: int, i: int, j: int)
    requires
        c > 0,
        0 <= j < c,
    ensures
        (i * c + j) / c == i,
        (i * c + j) % c == j,
{
    vstd::arithmetic::div_mod::lemma_fundamental_div_mod_converse(i * c + j, c, i, j);
}

/// A property established position by position in row-major order holds
/// of every `(i, j)` entry.
pub proof fn lemma_flat_to_entries<T>(data: Seq<T>, r: int, c: int, p: spec_fn(int, int, T) -> bool)
    requires
        c > 0,
        data.len() == r * c,
        forall|k: int| 0 <= k < r * c ==> #[trigger] p(k / c, k % c, data[k]),
    ensures
        forall|i: int, j: int| 0 <= i < r && 0 <= j < c ==> #[trigger] p(i, j, data[i * c + j]),
{
    assert forall|i: int, j: int| 0 <= i < r && 0 <= j < c implies #[trigger] p(i, j, data[i * c + j]) by {
        lemma_flat_bound(r, c, i, j);
        lemma_flat_split(c, i, j);
        assert(p((i * c + j) / c, (i * c + j) % c, data[i * c + j]));
    }
}

impl<T> DenseMatrix<T> {
    /// Number of rows.
    pub closed spec fn rows_spec(&self) -> nat {
        self.rows as nat
    }

    /// Number of columns.
    pub closed spec fn cols_spec(&self) -> nat {
        self.cols as nat
    }

    /// The entries in row-major order.
    pub closed spec fn entries(&self) -> Seq<T> {
        self.data@
    }

    /// The storage holds exactly `rows · cols` entries.
    pub open spec fn wf(&self) -> bool {
        self.entries().len() == self.rows_spec() * self.cols_spec()
    }

    /// Entry `(i, j)`.
    pub open spec fn at(&self, i: int, j: int) -> T {
        self.entries()[i * self.cols_spec() + j]
    }

    /// Number of rows.
    pub fn nrows(&self) -> (r: usize)
        ensures
            r == self.rows_spec(),
    {
        self.rows
    }

    /// Number of columns.
    pub fn ncols(&self) -> (c: usize)
        ensures
            c == self.cols_spec(),
    {
        self.cols
    }

    /// The flat row-major data.
    pub fn as_slice(&self) -> (s: &[T])
        ensures
            s@ == self.entries(),
    {
        self.data.as_slice()
    }

    /// Takes ownership of a row-major `Vec` of length `rows · cols`.
    pub fn from_vec(rows: usize, cols: usize, data: Vec<T>) -> (m: Self)
        requires
            data@.len() == rows * cols,
        ensures
            m.wf(),
            m.rows_spec() == rows,
            m.cols_spec() == cols,
            m.entries() == data@,
    {
        DenseMatrix { rows, cols, data }
    }
}

impl<T: Copy> DenseMatrix<T> {
    /// Builds a matrix from a row-major slice of length `rows · cols`.
    pub fn from_row_slice(rows: usize, cols: usize, data: &[T]) -> (m: Self)
        requires
            data@.len() == rows * cols,
        ensures
            m.wf(),
            m.rows_spec() == rows,
            m.cols_spec() == cols,
            m.entries() == data@,
    {
        let mut v: Vec<T> = Vec::new();
        let mut k: usize = 0;
        while k < data.len()
            invariant
                k <= data@.len(),
                v@ == data@.subrange(0, k as int),
            decreases data@.len() - k,
        {
            v.push(data[k]);
            k = k + 1;
        }
        assert(v@ == data@);
        DenseMatrix { rows, cols, data: v }
    }

    /// Entry `(row, col)`.
    pub fn get(&self, row: usize, col: usize) -> (t: T)
        requires
            self.wf(),
            row < self.rows_spec(),
            col < self.cols_spec(),
        ensures
            t == self.at(row as int, col as int),
    {
        let len = self.data.len();
        proof {
            lemma_flat_bound(self.rows as int, self.cols as int, row as int, col as int);
        }
        self.data[row * self.cols + col]
    }
}

impl<T> core::ops::Index<(usize, usize)> for DenseMatrix<T> {
    type Output = T;

    /// `m[(row, col)]` is entry `(row, col)`.
    fn index(&self, idx: (usize, usize)) -> (t: &T)
        ensures
            *t == self.at(idx.0 as int, idx.1 as int),
    {
        let len = self.data.len();
        proof {
            lemma_flat_bound(self.rows as int, self.cols as int, idx.0 as int, idx.1 as int);
        }
        &self.data[idx.0 * self.cols + idx.1]
    }
}

impl<T> vstd::std_specs::core::IndexSpecImpl<(usize, usize)> for DenseMatrix<T> {
    open spec fn index_req(&self, idx: &(usize, usize)) -> bool {
        self.wf() && idx.0 < self.rows_spec() && idx.1 < self.cols_spec()
    }
}


/// Two matrices have the same shape and the same entries.
pub open spec fn same_matrix(a: DenseMatrix<i64>, b: DenseMatrix<i64>) -> bool {
    &&& a.rows_spec() == b.rows_spec()
    &&& a.cols_spec() == b.cols_spec()
    &&& a.entries() == b.entries()
}

/// `z` is the `rows × cols` zero matrix.
pub open spec fn is_zero(z: DenseMatrix<i64>, rows: int, cols: int) -> bool {
    &&& z.wf()
    &&& z.rows_spec() == rows
    &&& z.cols_spec() == cols
    &&& forall|k: int| 0 <= k < z.entries().len() ==> #[trigger] z.entries()[k] == 0
}

/// `e` is the `n × n` identity matrix.
pub open spec fn is_identity(e: DenseMatrix<i64>, n: int) -> bool {
    &&& e.wf()
    &&& e.rows_spec() == n
    &&& e.cols_spec() == n
    &&& forall|i: int, j: int| 0 <= i < n && 0 <= j < n ==> #[trigger] e.at(i, j) == if i == j { 1i64 } else { 0i64 }
}

/// `s` is the entrywise sum `a + b`.
pub open spec fn is_sum(a: DenseMatrix<i64>, b: DenseMatrix<i64>, s: DenseMatrix<i64>) -> bool {
    &&& s.wf()
    &&& s.rows_spec() == a.rows_spec()
    &&& s.cols_spec() == a.cols_spec()
    &&& s.entries().len() == a.entries().len()
    &&& forall|k: int| 0 <= k < s.entries().len() ==> #[trigger] s.entries()[k] == a.entries()[k] + b.entries()[k]
}

/// `s` is the entrywise difference `a − b`.
pub open spec fn is_difference(a: DenseMatrix<i64>, b: DenseMatrix<i64>, s: DenseMatrix<i64>) -> bool {
    &&& s.wf()
    &&& s.rows_spec() == a.rows_spec()
    &&& s.cols_spec() == a.cols_spec()
    &&& s.entries().len() == a.entries().len()
    &&& forall|k: int| 0 <= k < s.entries().len() ==> #[trigger] s.entries()[k] == a.entries()[k] - b.entries()[k]
}

/// `s` is `x · a`.
pub open spec fn is_scaled(a: DenseMatrix<i64>, x: int, s: DenseMatrix<i64>) -> bool {
    &&& s.wf()
    &&& s.rows_spec() == a.rows_spec()
    &&& s.cols_spec() == a.cols_spec()
    &&& s.entries().len() == a.entries().len()
    &&& forall|k: int| 0 <= k < s.entries().len() ==> #[trigger] s.entries()[k] == a.entries()[k] * x
}

/// `t` is the transpose of `a`.
pub open spec fn is_transpose(a: DenseMatrix<i64>, t: DenseMatrix<i64>) -> bool {
    &&& t.wf()
    &&& t.rows_spec() == a.cols_spec()
    &&& t.cols_spec() == a.rows_spec()
    &&& forall|i: int, j: int| 0 <= i < a.rows_spec() && 0 <= j < a.cols_spec() ==> #[trigger] t.at(j, i) == a.at(i, j)
}

/// `Σ_{l<k} a(i, l) · b(l, j)`.
pub open spec fn dot_prefix(a: DenseMatrix<i64>, b: DenseMatrix<i64>, i: int, j: int, k: int) -> int
    decreases k,
{
    if k <= 0 {
        0
    } else {
        dot_prefix(a, b, i, j, k - 1) + a.at(i, k - 1) * b.at(k - 1, j)
    }
}

/// `p` is the matrix product `a · b`.
pub open spec fn is_product(a: DenseMatrix<i64>, b: DenseMatrix<i64>, p: DenseMatrix<i64>) -> bool {
    &&& p.wf()
    &&& p.rows_spec() == a.rows_spec()
    &&& p.cols_spec() == b.cols_spec()
    &&& forall|i: int, j: int| 0 <= i < a.rows_spec() && 0 <= j < b.cols_spec()
        ==> #[trigger] p.at(i, j) == dot_prefix(a, b, i, j, a.cols_spec() as int)
}

/// Every product and partial sum met while multiplying `a · b` fits in an `i64`.
pub open spec fn product_fits(a: DenseMatrix<i64>, b: DenseMatrix<i64>) -> bool {
    &&& forall|i: int, j: int, k: int|
        0 <= i < a.rows_spec() && 0 <= j < b.cols_spec() && 0 <= k <= a.cols_spec()
            ==> fits64(#[trigger] dot_prefix(a, b, i, j, k))
    &&& forall|i: int, j: int, k: int|
        0 <= i < a.rows_spec() && 0 <= j < b.cols_spec() && 0 <= k < a.cols_spec()
            ==> fits64(#[trigger] a.at(i, k) * #[trigger] b.at(k, j))
}

/// Matrices of the same shape whose entries agree position by position are equal.
pub proof fn lemma_entries_ext(a: DenseMatrix<i64>, b: DenseMatrix<i64>)
    requires
        a.wf(),
        b.wf(),
        a.rows_spec() == b.rows_spec(),
        a.cols_spec() == b.cols_spec(),
        forall|i: int, j: int| 0 <= i < a.rows_spec() && 0 <= j < a.cols_spec() ==> #[trigger] a.at(i, j) == b.at(i, j),
    ensures
        a.entries() == b.entries(),
{
    let r = a.rows_spec() as int;
    let c = a.cols_spec() as int;
    assert forall|k: int| 0 <= k < a.entries().len() implies a.entries()[k] == b.entries()[k] by {
        assert(c > 0) by (nonlinear_arith) requires 0 <= k < r * c, r >= 0, c >= 0;
        let i = k / c;
        let j = k % c;
        vstd::arithmetic::div_mod::lemma_fundamental_div_mod(k, c);
        assert(0 <= j < c);
        assert(k == i * c + j) by (nonlinear_arith) requires k == c * (k / c) + k % c, i == k / c, j == k % c;
        assert(0 <= i < r) by (nonlinear_arith) requires k == i * c + j, 0 <= j < c, 0 <= k < r * c, c > 0;
        assert(a.at(i, j) == b.at(i, j));
    }
    assert(a.entries() =~= b.entries());
}

impl DenseMatrix<i64> {
    /// The `rows × cols` zero matrix.
    pub fn zero(rows: usize, cols: usize) -> (z: Self)
        requires
            rows * cols <= usize::MAX,
        ensures
            is_zero(z, rows as int, cols as int),
    {
        let n = rows * cols;
        let mut data: Vec<i64> = Vec::new();
        let mut k: usize = 0;
        while k < n
            invariant
                k <= n,
                data@.len() == k,
                forall|q: int| 0 <= q < k ==> data@[q] == 0,
            decreases n - k,
        {
            data.push(0);
            k = k + 1;
        }
        DenseMatrix { rows, cols, data }
    }

    /// The `n × n` identity matrix.
    pub fn identity(n: usize) -> (e: Self)
        requires
            n * n <= usize::MAX,
        ensures
            is_identity(e, n as int),
    {
        let mut data: Vec<i64> = Vec::new();
        let mut i: usize = 0;
        while i < n
            invariant
                i <= n,
                n * n <= usize::MAX,
                data@.len() == i * n,
                forall|q: int| 0 <= q < data@.len() ==> #[trigger] data@[q] == if q / (n as int) == q % (n as int) { 1i64 } else { 0i64 },
            decreases n - i,
        {
            let mut j: usize = 0;
            while j < n
                invariant
                    i < n,
                    j <= n,
                    n * n <= usize::MAX,
                    data@.len() == i * n + j,
                    forall|q: int| 0 <= q < data@.len() ==> #[trigger] data@[q] == if q / (n as int) == q % (n as int) { 1i64 } else { 0i64 },
                decreases n - j,
            {
                proof {
                    lemma_flat_split(n as int, i as int, j as int);
                }
                data.push(if i == j { 1 } else { 0 });
                j = j + 1;
            }
            assert(data@.len() == (i + 1) * n) by (nonlinear_arith) requires data@.len() == i * n + n;
            i = i + 1;
        }
        let e = DenseMatrix { rows: n, cols: n, data };
        assert forall|i: int, j: int| 0 <= i < n && 0 <= j < n implies #[trigger] e.at(i, j) == if i == j { 1i64 } else { 0i64 } by {
            lemma_flat_bound(n as int, n as int, i, j);
            lemma_flat_split(n as int, i, j);
        }
        e
    }

    /// Sets entry `(row, col)` to `value`.
    pub fn set(&mut self, row: usize, col: usize, value: i64)
        requires
            old(self).wf(),
            row < old(self).rows_spec(),
            col < old(self).cols_spec(),
        ensures
            final(self).wf(),
            final(self).rows_spec() == old(self).rows_spec(),
            final(self).cols_spec() == old(self).cols_spec(),
            final(self).entries() == old(self).entries().update(row * old(self).cols_spec() + col, value),
    {
        let len = self.data.len();
        proof {
            lemma_flat_bound(self.rows as int, self.cols as int, row as int, col as int);
        }
        let idx = row * self.cols + col;
        self.data.set(idx, value);
    }

    /// Entrywise sum; the shapes agree and every sum fits in an `i64`.
    pub fn mat_add(&self, other: &Self) -> (s: Self)
        requires
            self.wf(),
            other.wf(),
            self.rows_spec() == other.rows_spec(),
            self.cols_spec() == other.cols_spec(),
            forall|k: int| 0 <= k < self.entries().len() ==> fits64(#[trigger] self.entries()[k] + other.entries()[k]),
        ensures
            is_sum(*self, *other, s),
    {
        let mut data: Vec<i64> = Vec::new();
        let mut k: usize = 0;
        while k < self.data.len()
            invariant
                self.wf(),
                other.wf(),
                self.data@.len() == other.data@.len(),
                k <= self.data@.len(),
                data@.len() == k,
                forall|q: int| 0 <= q < self.data@.len() ==> fits64(#[trigger] self.data@[q] + other.data@[q]),
                forall|q: int| 0 <= q < k ==> #[trigger] data@[q] == self.data@[q] + other.data@[q],
            decreases self.data@.len() - k,
        {
            data.push(self.data[k] + other.data[k]);
            k = k + 1;
        }
        DenseMatrix { rows: self.rows, cols: self.cols, data }
    }

    /// Entrywise difference; the shapes agree and every difference fits in an `i64`.
    pub fn mat_sub(&self, other: &Self) -> (s: Self)
        requires
            self.wf(),
            other.wf(),
            self.rows_spec() == other.rows_spec(),
            self.cols_spec() == other.cols_spec(),
            forall|k: int| 0 <= k < self.entries().len() ==> fits64(#[trigger] self.entries()[k] - other.entries()[k]),
        ensures
            is_difference(*self, *other, s),
    {
        let mut data: Vec<i64> = Vec::new();
        let mut k: usize = 0;
        while k < self.data.len()
            invariant
                self.wf(),
                other.wf(),
                self.data@.len() == other.data@.len(),
                k <= self.data@.len(),
                data@.len() == k,
                forall|q: int| 0 <= q < self.data@.len() ==> fits64(#[trigger] self.data@[q] - other.data@[q]),
                forall|q: int| 0 <= q < k ==> #[trigger] data@[q] == self.data@[q] - other.data@[q],
            decreases self.data@.len() - k,
        {
            data.push(self.data[k] - other.data[k]);
            k = k + 1;
        }
        DenseMatrix { rows: self.rows, cols: self.cols, data }
    }

    /// Scalar multiple `x · self`; every product fits in an `i64`.
    pub fn scalar_mul(&self, x: i64) -> (s: Self)
        requires
            self.wf(),
            forall|k: int| 0 <= k < self.entries().len() ==> fits64(#[trigger] self.entries()[k] * x),
        ensures
            is_scaled(*self, x as int, s),
    {
        let mut data: Vec<i64> = Vec::new();
        let mut k: usize = 0;
        while k < self.data.len()
            invariant
                self.wf(),
                k <= self.data@.len(),
                data@.len() == k,
                forall|q: int| 0 <= q < self.data@.len() ==> fits64(#[trigger] self.data@[q] * x),
                forall|q: int| 0 <= q < k ==> #[trigger] data@[q] == self.data@[q] * x,
            decreases self.data@.len() - k,
        {
            data.push(self.data[k] * x);
            k = k + 1;
        }
        DenseMatrix { rows: self.rows, cols: self.cols, data }
    }

    /// Entrywise negation; no entry is `i64::MIN`.
    pub fn neg(&self) -> (s: Self)
        requires
            self.wf(),
            forall|k: int| 0 <= k < self.entries().len() ==> #[trigger] self.entries()[k] > i64::MIN,
        ensures
            is_scaled(*self, -1, s),
    {
        let mut data: Vec<i64> = Vec::new();
        let mut k: usize = 0;
        while k < self.data.len()
            invariant
                self.wf(),
                k <= self.data@.len(),
                data@.len() == k,
                forall|q: int| 0 <= q < self.data@.len() ==> #[trigger] self.data@[q] > i64::MIN,
                forall|q: int| 0 <= q < k ==> #[trigger] data@[q] == self.data@[q] * -1,
            decreases self.data@.len() - k,
        {
            data.push(-self.data[k]);
            k = k + 1;
        }
        DenseMatrix { rows: self.rows, cols: self.cols, data }
    }

    /// The transpose.
    pub fn transpose(&self) -> (t: Self)
        requires
            self.wf(),
        ensures
            is_transpose(*self, t),
    {
        let r = self.rows;
        let c = self.cols;
        let len = self.data.len();
        let mut data: Vec<i64> = Vec::new();
        let mut i: usize = 0;
        while i < c
            invariant
                self.wf(),
                r == self.rows,
                c == self.cols,
                len == self.data@.len(),
                i <= c,
                data@.len() == i * r,
                forall|q: int| 0 <= q < data@.len() ==> #[trigger] data@[q] == self.at(q % (r as int), q / (r as int)),
            decreases c - i,
        {
            let mut j: usize = 0;
            while j < r
                invariant
                    self.wf(),
                    r == self.rows,
                    c == self.cols,
                    len == self.data@.len(),
                    i < c,
                    j <= r,
                    data@.len() == i * r + j,
                    forall|q: int| 0 <= q < data@.len() ==> #[trigger] data@[q] == self.at(q % (r as int), q / (r as int)),
                decreases r - j,
            {
                proof {
                    lemma_flat_split(r as int, i as int, j as int);
                    lemma_flat_bound(r as int, c as int, j as int, i as int);
                }
                data.push(self.data[j * c + i]);
                j = j + 1;
            }
            assert(data@.len() == (i + 1) * r) by (nonlinear_arith) requires data@.len() == i * r + r;
            i = i + 1;
        }
        let t = DenseMatrix { rows: c, cols: r, data };
        assert forall|i: int, j: int| 0 <= i < r && 0 <= j < c implies #[trigger] t.at(j, i) == self.at(i, j) by {
            lemma_flat_bound(c as int, r as int, j, i);
            lemma_flat_split(r as int, j, i);
        }
        t
    }

    /// Matrix product `self · other`; the inner dimensions agree and every
    /// product and partial sum fits in an `i64`.
    pub fn mat_mul(&self, other: &Self) -> (p: Self)
        requires
            self.wf(),
            other.wf(),
            self.cols_spec() == other.rows_spec(),
            self.rows_spec() * other.cols_spec() <= usize::MAX,
            product_fits(*self, *other),
        ensures
            is_product(*self, *other, p),
    {
        let r = self.rows;
        let n = self.cols;
        let c = other.cols;
        let len_a = self.data.len();
        let len_b = other.data.len();
        let mut data: Vec<i64> = Vec::new();
        let mut i: usize = 0;
        while i < r
            invariant
                self.wf(),
                other.wf(),
                r == self.rows,
                n == self.cols,
                n == other.rows,
                c == other.cols,
                r * c <= usize::MAX,
                product_fits(*self, *other),
                len_a == self.data@.len(),
                len_b == other.data@.len(),
                i <= r,
                data@.len() == i * c,
                forall|q: int| 0 <= q < data@.len() ==> #[trigger] data@[q] == dot_prefix(*self, *other, q / (c as int), q % (c as int), n as int),
            decreases r - i,
        {
            let mut j: usize = 0;
            while j < c
                invariant
                    self.wf(),
                    other.wf(),
                    r == self.rows,
                    n == self.cols,
                    n == other.rows,
                    c == other.cols,
                    r * c <= usize::MAX,
                    product_fits(*self, *other),
                    len_a == self.data@.len(),
                    len_b == other.data@.len(),
                    i < r,
                    j <= c,
                    data@.len() == i * c + j,
                    forall|q: int| 0 <= q < data@.len() ==> #[trigger] data@[q] == dot_prefix(*self, *other, q / (c as int), q % (c as int), n as int),
                decreases c - j,
            {
                let mut acc: i64 = 0;
                let mut k: usize = 0;
                while k < n
                    invariant
                        self.wf(),
                        other.wf(),
                        r == self.rows,
                        n == self.cols,
                        n == other.rows,
                        c == other.cols,
                        product_fits(*self, *other),
                        len_a == self.data@.len(),
                        len_b == other.data@.len(),
                        i < r,
                        j < c,
                        k <= n,
                        acc == dot_prefix(*self, *other, i as int, j as int, k as int),
                    decreases n - k,
                {
                    proof {
                        lemma_flat_bound(r as int, n as int, i as int, k as int);
                        lemma_flat_bound(n as int, c as int, k as int, j as int);
                        assert(fits64(self.at(i as int, k as int) * other.at(k as int, j as int)));
                        assert(fits64(dot_prefix(*self, *other, i as int, j as int, k + 1)));
                    }
                    let prod = self.data[i * n + k] * other.data[k * c + j];
                    acc = acc + prod;
                    k = k + 1;
                }
                proof {
                    lemma_flat_split(c as int, i as int, j as int);
                }
                data.push(acc);
                j = j + 1;
            }
            assert(data@.len() == (i + 1) * c) by (nonlinear_arith) requires data@.len() == i * c + c;
            i = i + 1;
        }
        let p = DenseMatrix { rows: r, cols: c, data };
        assert forall|i: int, j: int| 0 <= i < r && 0 <= j < c implies #[trigger] p.at(i, j) == dot_prefix(*self, *other, i, j, n as int) by {
            lemma_flat_bound(r as int, c as int, i, j);
            lemma_flat_split(c as int, i, j);
        }
        p
    }
}


impl core::ops::Add for DenseMatrix<i64> {
    type Output = DenseMatrix<i64>;

    /// `a + b` is [`DenseMatrix::mat_add`].
    fn add(self, rhs: Self) -> (s: Self)
        ensures
            is_sum(self, rhs, s),
    {
        self.mat_add(&rhs)
    }
}

impl vstd::std_specs::ops::AddSpecImpl for DenseMatrix<i64> {
    /// The sum is stated by the `ensures` of `add` (`is_sum`), not by `add_spec`.
    open spec fn obeys_add_spec() -> bool {
        false
    }

    open spec fn add_req(self, rhs: Self) -> bool {
        &&& self.wf()
        &&& rhs.wf()
        &&& self.rows_spec() == rhs.rows_spec()
        &&& self.cols_spec() == rhs.cols_spec()
        &&& forall|k: int| 0 <= k < self.entries().len() ==> fits64(#[trigger] self.entries()[k] + rhs.entries()[k])
    }

    open spec fn add_spec(self, rhs: Self) -> Self {
        self
    }
}

impl core::ops::Sub for DenseMatrix<i64> {
    type Output = DenseMatrix<i64>;

    /// `a - b` is [`DenseMatrix::mat_sub`].
    fn sub(self, rhs: Self) -> (s: Self)
        ensures
            is_difference(self, rhs, s),
    {
        self.mat_sub(&rhs)
    }
}

impl vstd::std_specs::ops::SubSpecImpl for DenseMatrix<i64> {
    /// The difference is stated by the `ensures` of `sub` (`is_difference`), not by `sub_spec`.
    open spec fn obeys_sub_spec() -> bool {
        false
    }

    open spec fn sub_req(self, rhs: Self) -> bool {
        &&& self.wf()
        &&& rhs.wf()
        &&& self.rows_spec() == rhs.rows_spec()
        &&& self.cols_spec() == rhs.cols_spec()
        &&& forall|k: int| 0 <= k < self.entries().len() ==> fits64(#[trigger] self.entries()[k] - rhs.entries()[k])
    }

    open spec fn sub_spec(self, rhs: Self) -> Self {
        self
    }
}

impl core::ops::Mul for DenseMatrix<i64> {
    type Output = DenseMatrix<i64>;

    /// `a * b` is [`DenseMatrix::mat_mul`].
    fn mul(self, rhs: Self) -> (p: Self)
        ensures
            is_product(self, rhs, p),
    {
        self.mat_mul(&rhs)
    }
}

impl vstd::std_specs::ops::MulSpecImpl for DenseMatrix<i64> {
    /// The product is stated by the `ensures` of `mul` (`is_product`), not by `mul_spec`.
    open spec fn obeys_mul_spec() -> bool {
        false
    }

    open spec fn mul_req(self, rhs: Self) -> bool {
        &&& self.wf()
        &&& rhs.wf()
        &&& self.cols_spec() == rhs.rows_spec()
        &&& self.rows_spec() * rhs.cols_spec() <= usize::MAX
        &&& product_fits(self, rhs)
    }

    open spec fn mul_spec(self, rhs: Self) -> Self {
        self
    }
}

impl core::ops::Mul<i64> for DenseMatrix<i64> {
    type Output = DenseMatrix<i64>;

    /// `a * x` is [`DenseMatrix::scalar_mul`].
    fn mul(self, x: i64) -> (p: Self)
        ensures
            is_scaled(self, x as int, p),
    {
        self.scalar_mul(x)
    }
}

impl vstd::std_specs::ops::MulSpecImpl<i64> for DenseMatrix<i64> {
    /// The product is stated by the `ensures` of `mul` (`is_scaled`), not by `mul_spec`.
    open spec fn obeys_mul_spec() -> bool {
        false
    }

    open spec fn mul_req(self, x: i64) -> bool {
        &&& self.wf()
        &&& forall|k: int| 0 <= k < self.entries().len() ==> fits64(#[trigger] self.entries()[k] * x)
    }

    open spec fn mul_spec(self, x: i64) -> Self {
        self
    }
}

impl core::ops::Neg for DenseMatrix<i64> {
    type Output = DenseMatrix<i64>;

    /// `-a` is [`DenseMatrix::neg`].
    fn neg(self) -> (n: Self)
        ensures
            is_scaled(self, -1, n),
    {
        DenseMatrix::neg(&self)
    }
}

impl vstd::std_specs::ops::NegSpecImpl for DenseMatrix<i64> {
    /// The negation is stated by the `ensures` of `neg` (`is_scaled` by −1), not by `neg_spec`.
    open spec fn obeys_neg_spec() -> bool {
        false
    }

    open spec fn neg_req(self) -> bool {
        &&& self.wf()
        &&& forall|k: int| 0 <= k < self.entries().len() ==> #[trigger] self.entries()[k] > i64::MIN
    }

    open spec fn neg_spec(self) -> Self {
        self
    }
}

/// Matrix addition is commutative.
pub proof fn lemma_add_commutative(a: DenseMatrix<i64>, b: DenseMatrix<i64>, s1: DenseMatrix<i64>, s2: DenseMatrix<i64>)
    requires
        a.wf(),
        b.wf(),
        a.rows_spec() == b.rows_spec(),
        a.cols_spec() == b.cols_spec(),
        is_sum(a, b, s1),
        is_sum(b, a, s2),
    ensures
        same_matrix(s1, s2),
{
    assert(s1.entries() =~= s2.entries());
}

/// The zero matrix is neutral for addition.
pub proof fn lemma_add_zero(a: DenseMatrix<i64>, z: DenseMatrix<i64>, s: DenseMatrix<i64>)
    requires
        a.wf(),
        is_zero(z, a.rows_spec() as int, a.cols_spec() as int),
        is_sum(a, z, s),
    ensures
        same_matrix(s, a),
{
    assert(s.entries() =~= a.entries());
}

/// `a − a` is the zero matrix.
pub proof fn lemma_sub_self(a: DenseMatrix<i64>, d: DenseMatrix<i64>)
    requires
        a.wf(),
        is_difference(a, a, d),
    ensures
        is_zero(d, a.rows_spec() as int, a.cols_spec() as int),
{
}

/// Scaling distributes over addition: `x(a + b) = xa + xb`.
pub proof fn lemma_scale_distributes(
    a: DenseMatrix<i64>,
    b: DenseMatrix<i64>,
    x: int,
    s: DenseMatrix<i64>,
    xs: DenseMatrix<i64>,
    xa: DenseMatrix<i64>,
    xb: DenseMatrix<i64>,
    r: DenseMatrix<i64>,
)
    requires
        a.wf(),
        b.wf(),
        a.rows_spec() == b.rows_spec(),
        a.cols_spec() == b.cols_spec(),
        is_sum(a, b, s),
        is_scaled(s, x, xs),
        is_scaled(a, x, xa),
        is_scaled(b, x, xb),
        is_sum(xa, xb, r),
    ensures
        same_matrix(xs, r),
{
    assert forall|k: int| 0 <= k < xs.entries().len() implies xs.entries()[k] == r.entries()[k] by {
        let p = a.entries()[k] as int;
        let q = b.entries()[k] as int;
        assert((p + q) * x == p * x + q * x) by (nonlinear_arith);
    }
    assert(xs.entries() =~= r.entries());
}

/// Scaling by 0 gives the zero matrix.
pub proof fn lemma_scale_zero(a: DenseMatrix<i64>, s: DenseMatrix<i64>)
    requires
        a.wf(),
        is_scaled(a, 0, s),
    ensures
        is_zero(s, a.rows_spec() as int, a.cols_spec() as int),
{
}

/// Negating twice gives the matrix back.
pub proof fn lemma_neg_involution(a: DenseMatrix<i64>, n1: DenseMatrix<i64>, n2: DenseMatrix<i64>)
    requires
        a.wf(),
        is_scaled(a, -1, n1),
        is_scaled(n1, -1, n2),
    ensures
        same_matrix(n2, a),
{
    assert(n2.entries() =~= a.entries());
}

/// Transposing twice gives the matrix back.
pub proof fn lemma_transpose_involution(a: DenseMatrix<i64>, t: DenseMatrix<i64>, u: DenseMatrix<i64>)
    requires
        a.wf(),
        is_transpose(a, t),
        is_transpose(t, u),
    ensures
        same_matrix(u, a),
{
    assert forall|i: int, j: int| 0 <= i < u.rows_spec() && 0 <= j < u.cols_spec() implies #[trigger] u.at(i, j) == a.at(i, j) by {
        assert(u.at(i, j) == t.at(j, i));
    }
    lemma_entries_ext(u, a);
}

/// The transpose of a sum is the sum of the transposes.
pub proof fn lemma_transpose_sum(
    a: DenseMatrix<i64>,
    b: DenseMatrix<i64>,
    s: DenseMatrix<i64>,
    st: DenseMatrix<i64>,
    at: DenseMatrix<i64>,
    bt: DenseMatrix<i64>,
    r: DenseMatrix<i64>,
)
    requires
        a.wf(),
        b.wf(),
        a.rows_spec() == b.rows_spec(),
        a.cols_spec() == b.cols_spec(),
        is_sum(a, b, s),
        is_transpose(s, st),
        is_transpose(a, at),
        is_transpose(b, bt),
        is_sum(at, bt, r),
    ensures
        same_matrix(st, r),
{
    assert forall|i: int, j: int| 0 <= i < st.rows_spec() && 0 <= j < st.cols_spec() implies #[trigger] st.at(i, j) == r.at(i, j) by {
        lemma_flat_bound(a.rows_spec() as int, a.cols_spec() as int, j, i);
        lemma_flat_bound(a.cols_spec() as int, a.rows_spec() as int, i, j);
        assert(st.at(i, j) == s.at(j, i));
        assert(at.at(i, j) == a.at(j, i));
        assert(bt.at(i, j) == b.at(j, i));
    }
    lemma_entries_ext(st, r);
}

/// A row of the identity picks one entry: `Σ_{l<k} a(i, l)·e(l, j) = [j < k]·a(i, j)`.
proof fn lemma_dot_identity_right(a: DenseMatrix<i64>, e: DenseMatrix<i64>, i: int, j: int, k: int)
    requires
        is_identity(e, a.cols_spec() as int),
        0 <= j < a.cols_spec(),
        0 <= k <= a.cols_spec(),
    ensures
        dot_prefix(a, e, i, j, k) == if j < k { a.at(i, j) as int } else { 0 },
    decreases k,
{
    if k > 0 {
        lemma_dot_identity_right(a, e, i, j, k - 1);
        assert(e.at(k - 1, j) == if k - 1 == j { 1i64 } else { 0i64 });
    }
}

/// A column of the identity picks one entry: `Σ_{l<k} e(i, l)·a(l, j) = [i < k]·a(i, j)`.
proof fn lemma_dot_identity_left(e: DenseMatrix<i64>, a: DenseMatrix<i64>, i: int, j: int, k: int)
    requires
        is_identity(e, a.rows_spec() as int),
        0 <= i < a.rows_spec(),
        0 <= k <= a.rows_spec(),
    ensures
        dot_prefix(e, a, i, j, k) == if i < k { a.at(i, j) as int } else { 0 },
    decreases k,
{
    if k > 0 {
        lemma_dot_identity_left(e, a, i, j, k - 1);
        assert(e.at(i, k - 1) == if i == k - 1 { 1i64 } else { 0i64 });
    }
}

/// The identity is neutral for multiplication on both sides.
pub proof fn lemma_mul_identity(a: DenseMatrix<i64>, er: DenseMatrix<i64>, el: DenseMatrix<i64>, p: DenseMatrix<i64>, q: DenseMatrix<i64>)
    requires
        a.wf(),
        is_identity(er, a.cols_spec() as int),
        is_identity(el, a.rows_spec() as int),
        is_product(a, er, p),
        is_product(el, a, q),
    ensures
        same_matrix(p, a),
        same_matrix(q, a),
{
    assert forall|i: int, j: int| 0 <= i < p.rows_spec() && 0 <= j < p.cols_spec() implies #[trigger] p.at(i, j) == a.at(i, j) by {
        lemma_dot_identity_right(a, er, i, j, a.cols_spec() as int);
    }
    lemma_entries_ext(p, a);
    assert forall|i: int, j: int| 0 <= i < q.rows_spec() && 0 <= j < q.cols_spec() implies #[trigger] q.at(i, j) == a.at(i, j) by {
        lemma_dot_identity_left(el, a, i, j, a.rows_spec() as int);
    }
    lemma_entries_ext(q, a);
}

/// A product with a zero factor has all partial sums 0.
proof fn lemma_dot_zero(a: DenseMatrix<i64>, z: DenseMatrix<i64>, i: int, j: int, k: int)
    requires
        z.wf(),
        forall|q: int| 0 <= q < z.entries().len() ==> #[trigger] z.entries()[q] == 0,
        0 <= j < z.cols_spec(),
        0 <= k <= z.rows_spec(),
    ensures
        dot_prefix(a, z, i, j, k) == 0,
    decreases k,
{
    if k > 0 {
        lemma_dot_zero(a, z, i, j, k - 1);
        lemma_flat_bound(z.rows_spec() as int, z.cols_spec() as int, k - 1, j);
        assert(z.at(k - 1, j) == 0);
    }
}

/// Multiplying by a zero matrix gives the zero matrix.
pub proof fn lemma_mul_zero(a: DenseMatrix<i64>, z: DenseMatrix<i64>, p: DenseMatrix<i64>)
    requires
        a.wf(),
        is_zero(z, a.cols_spec() as int, z.cols_spec() as int),
        is_product(a, z, p),
    ensures
        is_zero(p, a.rows_spec() as int, z.cols_spec() as int),
{
    let c = p.cols_spec() as int;
    assert forall|k: int| 0 <= k < p.entries().len() implies #[trigger] p.entries()[k] == 0 by {
        let i = k / c;
        let j = k % c;
        assert(c > 0) by (nonlinear_arith) requires 0 <= k < p.rows_spec() * c, c >= 0;
        vstd::arithmetic::div_mod::lemma_fundamental_div_mod(k, c);
        assert(k == i * c + j) by (nonlinear_arith) requires k == c * (k / c) + k % c, i == k / c, j == k % c;
        assert(0 <= i < p.rows_spec()) by (nonlinear_arith)
            requires k == i * c + j, 0 <= j < c, 0 <= k < p.rows_spec() * c, c > 0;
        lemma_dot_zero(a, z, i, j, a.cols_spec() as int);
        assert(p.at(i, j) == 0);
    }
}

/// `Σ_{l<k} bᵀ(j, l)·aᵀ(l, i) = Σ_{l<k} a(i, l)·b(l, j)`.
proof fn lemma_dot_transpose(
    a: DenseMatrix<i64>,
    b: DenseMatrix<i64>,
    at: DenseMatrix<i64>,
    bt: DenseMatrix<i64>,
    i: int,
    j: int,
    k: int,
)
    requires
        is_transpose(a, at),
        is_transpose(b, bt),
        a.cols_spec() == b.rows_spec(),
        0 <= i < a.rows_spec(),
        0 <= j < b.cols_spec(),
        0 <= k <= a.cols_spec(),
    ensures
        dot_prefix(bt, at, j, i, k) == dot_prefix(a, b, i, j, k),
    decreases k,
{
    if k > 0 {
        lemma_dot_transpose(a, b, at, bt, i, j, k - 1);
        assert(bt.at(j, k - 1) == b.at(k - 1, j));
        assert(at.at(k - 1, i) == a.at(i, k - 1));
        let x = a.at(i, k - 1) as int;
        let y = b.at(k - 1, j) as int;
        assert(y * x == x * y) by (nonlinear_arith);
    }
}

/// The transpose of a product is the product of the transposes in reverse order.
pub proof fn lemma_transpose_product(
    a: DenseMatrix<i64>,
    b: DenseMatrix<i64>,
    p: DenseMatrix<i64>,
    pt: DenseMatrix<i64>,
    at: DenseMatrix<i64>,
    bt: DenseMatrix<i64>,
    q: DenseMatrix<i64>,
)
    requires
        a.wf(),
        b.wf(),
        a.cols_spec() == b.rows_spec(),
        is_product(a, b, p),
        is_transpose(p, pt),
        is_transpose(a, at),
        is_transpose(b, bt),
        is_product(bt, at, q),
    ensures
        same_matrix(pt, q),
{
    assert forall|j: int, i: int| 0 <= j < pt.rows_spec() && 0 <= i < pt.cols_spec() implies #[trigger] pt.at(j, i) == q.at(j, i) by {
        assert(pt.at(j, i) == p.at(i, j));
        lemma_dot_transpose(a, b, at, bt, i, j, a.cols_spec() as int);
    }
    lemma_entries_ext(pt, q);
}

} // verus!
