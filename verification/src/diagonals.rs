//! The diagonals view: the matrices `U(m)`, `V(m)`, `V(m)·U(m)`,
//! `U(m)·C_red`, the pair relations and `D(m)` as HTML tables, the vectors
//! `1ᵀU(m)`, `c₁`, `zd(m)` and `D(m)·c₁` with the identities they satisfy,
//! and the `rn` block: the reflected-gap counts `r_i`, the counts
//! `n_i = q_i − r_i`, and the matrix `RSym` whose product with them vanishes.
use vstd::prelude::*;
use vstd::string::StringExecFns;
use crate::grid::concat_n;
use crate::html::{cell_class, cell_cls, get_cls, get_cls_text, push_span, span_text};
use crate::identities::{class_gaps, gap_total};
use crate::inspect::{kunz_spec, r_i_spec};
use crate::semigroup::Semigroup;
use crate::strata::dec;
use crate::cones::{matrix_rows, rows_from_matrix};
use crate::kunz_matrices::{ind, c_red, d_matrix, d_entry, is_square_of, lemma_rows_before_closed, matrix_size_ok, pair_entry, pair_row, pair_rows_hold, rows_before, u_dot, u_entry, u_matrix, u_pair_relations, u_times_c_red, u_times_fits, v_entry, v_matrix, zd_entry, zd_vector, col_total};
use crate::matrix::DenseMatrix;
use crate::text::{int_text, push_int, push_usize, rows_of_vecs};

verus! {

/// How the cells of a matrix table are drawn.
#[derive(Clone, Copy, PartialEq, Eq, Structural)]
pub enum CellKind {
    /// The number in decimal.
    Plain,
    /// 0, 1 and −1 with their own classes, other numbers in decimal.
    Pm,
    /// In the first column, a non-negative number as a span with its class.
    Classified,
    /// Like `Classified`, with the classes of [`get_cls`].
    Graded,
}

/// `<td>v</td>`.
pub open spec fn td_int(v: int) -> Seq<char> {
    "<td>"@ + int_text(v) + "</td>"@
}

/// The cell of a value among `{−1, 0, 1}` with its class, else plain.
pub open spec fn pm_text(v: int) -> Seq<char> {
    if v == 0 {
        "<td class=\"pm-zero\">0</td>"@
    } else if v == 1 {
        "<td class=\"pm-pos1\">1</td>"@
    } else if v == -1 {
        "<td class=\"pm-neg1\">\u{2212}1</td>"@
    } else {
        td_int(v)
    }
}

/// The cell of value `v` in column `b`.
pub open spec fn cell_text(kind: CellKind, s: Semigroup, b: int, v: int) -> Seq<char> {
    match kind {
        CellKind::Plain => td_int(v),
        CellKind::Pm => pm_text(v),
        CellKind::Classified => if b == 0 && v >= 0 {
            "<td>"@ + span_text(cell_class(s, v), v as nat, true) + "</td>"@
        } else {
            td_int(v)
        },
        CellKind::Graded => if b == 0 && v >= 0 {
            "<td>"@ + span_text(get_cls_text(s, v, false), v as nat, true) + "</td>"@
        } else {
            td_int(v)
        },
    }
}

/// `<th>1</th>…<th>k</th>`.
pub open spec fn one_based_header(k: nat) -> Seq<char> {
    concat_n(k, |b: int| "<th>"@ + dec((b + 1) as nat) + "</th>"@)
}

/// The cells of one row.
pub open spec fn row_text(kind: CellKind, s: Semigroup, row: Seq<i64>) -> Seq<char> {
    concat_n(row.len(), |b: int| cell_text(kind, s, b, row[b] as int))
}

/// The body rows, each with its label.
pub open spec fn body_text(kind: CellKind, s: Semigroup, labels: Seq<Seq<char>>, rows: Seq<Seq<i64>>) -> Seq<char> {
    concat_n(rows.len(), |a: int| "<tr><th>"@ + labels[a] + "</th>"@ + row_text(kind, s, rows[a]) + "</tr>"@)
}

/// A matrix as a table: the caption and the columns `1..=ncols` as header,
/// then one labelled row per matrix row.
pub open spec fn mat_table(caption: Seq<char>, ncols: nat, labels: Seq<Seq<char>>, rows: Seq<Seq<i64>>, kind: CellKind, s: Semigroup) -> Seq<char> {
    "<table class=\"classify-table u-matrix-table\"><thead><tr><th>"@ + caption + "</th>"@ + one_based_header(ncols)
        + "</tr></thead><tbody>"@ + body_text(kind, s, labels, rows) + "</tbody></table>"@
}

/// The views of strings.
pub open spec fn strings_view(v: Seq<String>) -> Seq<Seq<char>> {
    Seq::new(v.len(), |i: int| v[i]@)
}

/// Appends the cell of value `v` in column `b`.
fn push_cell(out: &mut String, kind: CellKind, sg: &Semigroup, b: usize, v: i64)
    requires
        sg.wf(),
        (kind == CellKind::Classified || kind == CellKind::Graded) && b == 0 ==> v <= usize::MAX,
    ensures
        final(out)@ == old(out)@ + cell_text(kind, *sg, b as int, v as int),
{
    match kind {
        CellKind::Pm => {
            if v == 0 {
                out.append("<td class=\"pm-zero\">0</td>");
                return;
            } else if v == 1 {
                out.append("<td class=\"pm-pos1\">1</td>");
                return;
            } else if v == -1 {
                out.append("<td class=\"pm-neg1\">\u{2212}1</td>");
                return;
            }
        },
        CellKind::Classified => {
            if b == 0 && v >= 0 {
                let u = v as usize;
                out.append("<td>");
                push_span(out, cell_cls(u, sg), u, true);
                out.append("</td>");
                return;
            }
        },
        CellKind::Graded => {
            if b == 0 && v >= 0 {
                let u = v as usize;
                out.append("<td>");
                push_span(out, get_cls(u, false, sg), u, true);
                out.append("</td>");
                return;
            }
        },
        CellKind::Plain => {},
    }
    out.append("<td>");
    push_int(out, v);
    out.append("</td>");
}

/// Appends a matrix table.
fn push_mat_table(out: &mut String, caption: &str, ncols: usize, labels: &Vec<String>, rows: &Vec<Vec<i64>>, kind: CellKind, sg: &Semigroup)
    requires
        sg.wf(),
        labels@.len() == rows@.len(),
        (kind == CellKind::Classified || kind == CellKind::Graded) ==> forall|a: int| 0 <= a < rows@.len() && rows@[a]@.len() > 0 ==> #[trigger] rows@[a]@[0] <= usize::MAX,
    ensures
        final(out)@ == old(out)@ + mat_table(caption@, ncols as nat, strings_view(labels@), rows_of_vecs(rows@), kind, *sg),
{
    out.append("<table class=\"classify-table u-matrix-table\"><thead><tr><th>");
    out.append(caption);
    out.append("</th>");
    let ghost h0 = out@;
    let ghost hf = |b: int| "<th>"@ + dec((b + 1) as nat) + "</th>"@;
    let mut b: usize = 0;
    while b < ncols
        invariant
            b <= ncols,
            hf == (|b: int| "<th>"@ + dec((b + 1) as nat) + "</th>"@),
            out@ == h0 + concat_n(b as nat, hf),
        decreases ncols - b,
    {
        out.append("<th>");
        push_u64_plus_one(out, b);
        out.append("</th>");
        proof {
            assert(concat_n((b + 1) as nat, hf) == concat_n(b as nat, hf) + hf(b as int));
            assert(out@ =~= h0 + concat_n((b + 1) as nat, hf));
        }
        b = b + 1;
    }
    proof {
        assert(one_based_header(ncols as nat) == concat_n(ncols as nat, hf));
    }
    out.append("</tr></thead><tbody>");
    let ghost b0 = out@;
    let ghost lv = strings_view(labels@);
    let ghost rv = rows_of_vecs(rows@);
    let ghost bf = |a: int| "<tr><th>"@ + lv[a] + "</th>"@ + row_text(kind, *sg, rv[a]) + "</tr>"@;
    let mut a: usize = 0;
    while a < rows.len()
        invariant
            sg.wf(),
            labels@.len() == rows@.len(),
            (kind == CellKind::Classified || kind == CellKind::Graded) ==> forall|a: int| 0 <= a < rows@.len() && rows@[a]@.len() > 0 ==> #[trigger] rows@[a]@[0] <= usize::MAX,
            a <= rows@.len(),
            lv == strings_view(labels@),
            rv == rows_of_vecs(rows@),
            bf == (|a: int| "<tr><th>"@ + lv[a] + "</th>"@ + row_text(kind, *sg, rv[a]) + "</tr>"@),
            out@ == b0 + concat_n(a as nat, bf),
        decreases rows@.len() - a,
    {
        let ghost before = out@;
        out.append("<tr><th>");
        out.append(labels[a].as_str());
        out.append("</th>");
        let row = &rows[a];
        let ghost r0 = out@;
        let ghost cf = |b: int| cell_text(kind, *sg, b, rv[a as int][b] as int);
        let mut b: usize = 0;
        while b < row.len()
            invariant
                sg.wf(),
                a < rows@.len(),
                (kind == CellKind::Classified || kind == CellKind::Graded) ==> forall|a: int| 0 <= a < rows@.len() && rows@[a]@.len() > 0 ==> #[trigger] rows@[a]@[0] <= usize::MAX,
                rv == rows_of_vecs(rows@),
                row@ == rv[a as int],
                b <= row@.len(),
                cf == (|b: int| cell_text(kind, *sg, b, rv[a as int][b] as int)),
                out@ == r0 + concat_n(b as nat, cf),
            decreases row@.len() - b,
        {
            push_cell(out, kind, sg, b, row[b]);
            proof {
                assert(concat_n((b + 1) as nat, cf) == concat_n(b as nat, cf) + cf(b as int));
            }
            b = b + 1;
        }
        out.append("</tr>");
        proof {
            assert(row_text(kind, *sg, rv[a as int]) == concat_n(row@.len(), cf));
            assert(out@ =~= before + bf(a as int));
            assert(concat_n((a + 1) as nat, bf) == concat_n(a as nat, bf) + bf(a as int));
        }
        a = a + 1;
    }
    proof {
        assert(body_text(kind, *sg, lv, rv) == concat_n(rows@.len(), bf));
    }
    out.append("</tbody></table>");
    proof {
        assert(final(out)@ =~= old(out)@ + mat_table(caption@, ncols as nat, lv, rv, kind, *sg));
    }
}

/// Appends `b + 1` in decimal.
fn push_u64_plus_one(out: &mut String, b: usize)
    requires
        b < usize::MAX,
    ensures
        final(out)@ == old(out)@ + dec((b + 1) as nat),
{
    push_usize(out, b + 1);
}

/// The labels `1, …, n`.
pub open spec fn one_based_labels(n: nat) -> Seq<Seq<char>> {
    Seq::new(n, |a: int| dec((a + 1) as nat))
}

/// The labels `1, …, n` as strings.
fn one_based(n: usize) -> (v: Vec<String>)
    ensures
        strings_view(v@) == one_based_labels(n as nat),
        v@.len() == n,
{
    let mut v: Vec<String> = Vec::new();
    let mut a: usize = 0;
    while a < n
        invariant
            a <= n,
            v@.len() == a,
            forall|i: int| 0 <= i < a ==> #[trigger] v@[i]@ == dec((i + 1) as nat),
        decreases n - a,
    {
        let mut l = String::new();
        push_usize(&mut l, a + 1);
        proof {
            assert(l@ =~= dec((a + 1) as nat));
        }
        v.push(l);
        a = a + 1;
    }
    proof {
        assert(strings_view(v@) =~= one_based_labels(n as nat));
    }
    v
}

/// The `n × n` rows of entries `f(a, b)`.
pub open spec fn square_rows(n: nat, f: spec_fn(int, int) -> int) -> Seq<Seq<i64>> {
    Seq::new(n, |a: int| Seq::new(n, |b: int| f(a, b) as i64))
}

/// The rows of a square matrix given by a formula.
proof fn lemma_square_rows(p: DenseMatrix<i64>, m: int, f: spec_fn(int, int) -> int)
    requires
        is_square_of(p, m, f),
    ensures
        matrix_rows(p) == square_rows((m - 1) as nat, f),
{
    assert forall|a: int| 0 <= a < m - 1 implies #[trigger] matrix_rows(p)[a] == square_rows((m - 1) as nat, f)[a] by {
        assert forall|b: int| 0 <= b < m - 1 implies matrix_rows(p)[a][b] == square_rows((m - 1) as nat, f)[a][b] by {
            assert(p.at(a, b) as int == f(a, b));
        }
        assert(matrix_rows(p)[a] =~= square_rows((m - 1) as nat, f)[a]);
    }
    assert(matrix_rows(p) =~= square_rows((m - 1) as nat, f));
}

/// `<td>v₀</td>…` for a vector.
pub open spec fn tds(v: Seq<i64>) -> Seq<char> {
    concat_n(v.len(), |i: int| td_int(v[i] as int))
}

/// Appends `<td>v</td>` for each entry.
fn push_tds(out: &mut String, v: &Vec<i64>)
    ensures
        final(out)@ == old(out)@ + tds(v@),
{
    let ghost start = out@;
    let ghost f = |i: int| td_int(v@[i] as int);
    let mut i: usize = 0;
    while i < v.len()
        invariant
            i <= v@.len(),
            f == (|i: int| td_int(v@[i] as int)),
            out@ == start + concat_n(i as nat, f),
        decreases v@.len() - i,
    {
        out.append("<td>");
        push_int(out, v[i]);
        out.append("</td>");
        proof {
            assert(concat_n((i + 1) as nat, f) == concat_n(i as nat, f) + f(i as int));
            assert(out@ =~= start + concat_n((i + 1) as nat, f));
        }
        i = i + 1;
    }
}

/// The rows of the pairs `(a, b)`, `a ≤ b < n`, with `a < k`, in lexicographic order.
pub open spec fn pair_rows_upto(m: int, k: int) -> Seq<Seq<i64>>
    decreases k,
{
    if k <= 0 {
        Seq::empty()
    } else {
        let a = k - 1;
        pair_rows_upto(m, k - 1) + Seq::new((m - 1 - a) as nat, |t: int| Seq::new((m - 1) as nat, |c: int| pair_entry(m, a, a + t, c) as i64))
    }
}

/// The labels `(a + 1, b + 1)` of the same pairs.
pub open spec fn pair_labels_upto(m: int, k: int) -> Seq<Seq<char>>
    decreases k,
{
    if k <= 0 {
        Seq::empty()
    } else {
        let a = k - 1;
        pair_labels_upto(m, k - 1) + Seq::new((m - 1 - a) as nat, |t: int| "("@ + dec(k as nat) + ","@ + dec((a + t + 1) as nat) + ")"@)
    }
}

/// The rows of the pair-relations matrix in the order of their pairs, with
/// their labels.
fn pair_table_rows(m: usize, p: &DenseMatrix<i64>) -> (r: (Vec<Vec<i64>>, Vec<String>))
    requires
        matrix_size_ok(m as int),
        pair_rows_hold(*p, m - 1, m - 1, |a: int, b: int, col: int| pair_entry(m as int, a, b, col)),
    ensures
        rows_of_vecs(r.0@) == pair_rows_upto(m as int, m - 1),
        strings_view(r.1@) == pair_labels_upto(m as int, m - 1),
{
    let n = m - 1;
    let mut rows: Vec<Vec<i64>> = Vec::new();
    let mut labels: Vec<String> = Vec::new();
    let mut row_idx: usize = 0;
    let mut a: usize = 0;
    while a < n
        invariant
            n == m - 1,
            matrix_size_ok(m as int),
            pair_rows_hold(*p, m - 1, m - 1, |a: int, b: int, col: int| pair_entry(m as int, a, b, col)),
            a <= n,
            row_idx == rows_before(a as int, n as int),
            rows_of_vecs(rows@) == pair_rows_upto(m as int, a as int),
            strings_view(labels@) == pair_labels_upto(m as int, a as int),
        decreases n - a,
    {
        let ghost rows0 = rows_of_vecs(rows@);
        let ghost labels0 = strings_view(labels@);
        let mut b: usize = a;
        while b < n
            invariant
                n == m - 1,
                matrix_size_ok(m as int),
                pair_rows_hold(*p, m - 1, m - 1, |a: int, b: int, col: int| pair_entry(m as int, a, b, col)),
                a < n,
                a <= b <= n,
                row_idx == rows_before(a as int, n as int) + (b - a),
                rows_of_vecs(rows@) == rows0 + Seq::new((b - a) as nat, |t: int| Seq::new((m - 1) as nat, |c: int| pair_entry(m as int, a as int, a + t, c) as i64)),
                strings_view(labels@) == labels0 + Seq::new((b - a) as nat, |t: int| "("@ + dec((a + 1) as nat) + ","@ + dec((a + t + 1) as nat) + ")"@),
            decreases n - b,
        {
            proof {
                lemma_rows_before_closed(a as int, n as int);
                let ra = rows_before(a as int, n as int);
                assert(2 * (ra + (b - a)) < n * (n + 1)) by (nonlinear_arith)
                    requires 2 * ra == a * (2 * n - a + 1), 0 <= a <= b < n;
                assert(pair_row(a as int, b as int, n as int) == row_idx);
            }
            let mut row: Vec<i64> = Vec::new();
            let mut c: usize = 0;
            while c < n
                invariant
                    n == m - 1,
                    pair_rows_hold(*p, m - 1, m - 1, |a: int, b: int, col: int| pair_entry(m as int, a, b, col)),
                    a <= b < n,
                    row_idx == pair_row(a as int, b as int, n as int),
                    2 * row_idx < n * (n + 1),
                    c <= n,
                    row@.len() == c,
                    forall|j: int| 0 <= j < c ==> #[trigger] row@[j] == pair_entry(m as int, a as int, b as int, j) as i64,
                decreases n - c,
            {
                let v = p.get(row_idx, c);
                proof {
                    assert(p.at(pair_row(a as int, b as int, n as int), c as int) as int == pair_entry(m as int, a as int, b as int, c as int));
                }
                row.push(v);
                c = c + 1;
            }
            let mut l = String::new();
            l.append("(");
            push_usize(&mut l, a + 1);
            l.append(",");
            push_usize(&mut l, b + 1);
            l.append(")");
            let ghost rprev = rows_of_vecs(rows@);
            let ghost lprev = strings_view(labels@);
            rows.push(row);
            labels.push(l);
            proof {
                assert(rows_of_vecs(rows@) =~= rprev.push(row@));
                assert(strings_view(labels@) =~= lprev.push(l@));
                assert(row@ =~= Seq::new((m - 1) as nat, |c: int| pair_entry(m as int, a as int, b as int, c) as i64));
                assert(rows_of_vecs(rows@) =~= rows0 + Seq::new((b + 1 - a) as nat, |t: int| Seq::new((m - 1) as nat, |c: int| pair_entry(m as int, a as int, a + t, c) as i64)));
                assert(strings_view(labels@) =~= labels0 + Seq::new((b + 1 - a) as nat, |t: int| "("@ + dec((a + 1) as nat) + ","@ + dec((a + t + 1) as nat) + ")"@));
            }
            proof {
                assert(row_idx + 1 <= n * n) by (nonlinear_arith) requires 2 * row_idx < n * (n + 1), n >= 1;
            }
            row_idx = row_idx + 1;
            b = b + 1;
        }
        proof {
            assert(rows_before(a + 1, n as int) == rows_before(a as int, n as int) + (n - a));
            assert(pair_rows_upto(m as int, a + 1) == pair_rows_upto(m as int, a as int) + Seq::new((m - 1 - a) as nat, |t: int| Seq::new((m - 1) as nat, |c: int| pair_entry(m as int, a as int, a + t, c) as i64)));
            assert(pair_labels_upto(m as int, a + 1) == pair_labels_upto(m as int, a as int) + Seq::new((m - 1 - a) as nat, |t: int| "("@ + dec((a + 1) as nat) + ","@ + dec((a + t + 1) as nat) + ")"@));
        }
        a = a + 1;
    }
    (rows, labels)
}

/// `Σ_{b<k} x[b] · y[b]`.
pub open spec fn sdot(x: Seq<i64>, y: Seq<i64>, k: int) -> int
    decreases k,
{
    if k <= 0 {
        0
    } else {
        sdot(x, y, k - 1) + x[k - 1] * y[k - 1]
    }
}

/// `|v|`.
pub open spec fn iabs(v: int) -> int {
    if v < 0 { -v } else { v }
}

/// A partial dot product is bounded by the bounds of its factors.
proof fn lemma_sdot_bound(x: Seq<i64>, y: Seq<i64>, k: int, bx: int, by: int)
    requires
        0 <= k <= x.len(),
        k <= y.len(),
        bx >= 0,
        by >= 0,
        forall|i: int| 0 <= i < x.len() ==> iabs(#[trigger] x[i] as int) <= bx,
        forall|i: int| 0 <= i < y.len() ==> iabs(#[trigger] y[i] as int) <= by,
    ensures
        iabs(sdot(x, y, k)) <= k * (bx * by),
    decreases k,
{
    if k > 0 {
        lemma_sdot_bound(x, y, k - 1, bx, by);
        let a = x[k - 1] as int;
        let b = y[k - 1] as int;
        assert(iabs(a) <= bx && iabs(b) <= by);
        assert(iabs(a * b) <= bx * by) by (nonlinear_arith)
            requires iabs(a) <= bx, iabs(b) <= by, bx >= 0, by >= 0;
        assert((k - 1) * (bx * by) + bx * by == k * (bx * by)) by (nonlinear_arith);
    } else {
        assert(0 * (bx * by) == 0) by (nonlinear_arith);
    }
}

/// The dot product of two vectors whose entries are bounded by `bx` and `by`.
fn dot(x: &Vec<i64>, y: &Vec<i64>, Ghost(bx): Ghost<int>, Ghost(by): Ghost<int>) -> (d: i64)
    requires
        x@.len() == y@.len(),
        bx >= 0,
        by >= 0,
        forall|i: int| 0 <= i < x@.len() ==> iabs(#[trigger] x@[i] as int) <= bx,
        forall|i: int| 0 <= i < y@.len() ==> iabs(#[trigger] y@[i] as int) <= by,
        x@.len() * (bx * by) <= i64::MAX,
    ensures
        d == sdot(x@, y@, x@.len() as int),
{
    let mut acc: i64 = 0;
    let mut k: usize = 0;
    while k < x.len()
        invariant
            x@.len() == y@.len(),
            bx >= 0,
            by >= 0,
            forall|i: int| 0 <= i < x@.len() ==> iabs(#[trigger] x@[i] as int) <= bx,
            forall|i: int| 0 <= i < y@.len() ==> iabs(#[trigger] y@[i] as int) <= by,
            x@.len() * (bx * by) <= i64::MAX,
            k <= x@.len(),
            acc == sdot(x@, y@, k as int),
        decreases x@.len() - k,
    {
        proof {
            lemma_sdot_bound(x@, y@, k + 1, bx, by);
            lemma_sdot_bound(x@, y@, k as int, bx, by);
            let a = x@[k as int] as int;
            let b = y@[k as int] as int;
            assert(iabs(a * b) <= bx * by) by (nonlinear_arith)
                requires iabs(a) <= bx, iabs(b) <= by, bx >= 0, by >= 0;
            assert((k + 1) * (bx * by) <= x@.len() * (bx * by)) by (nonlinear_arith)
                requires k + 1 <= x@.len(), bx * by >= 0;
            assert(bx * by >= 0) by (nonlinear_arith) requires bx >= 0, by >= 0;
            assert(bx * by <= x@.len() * (bx * by)) by (nonlinear_arith) requires k + 1 <= x@.len(), bx * by >= 0;
        }
        acc = acc + x[k] * y[k];
        k = k + 1;
    }
    acc
}

/// The sizes of a semigroup keep every entry of the diagonals view well
/// inside `i64`.
pub open spec fn diag_fits(s: Semigroup) -> bool {
    &&& s.m >= 2
    &&& 64 * (s.m * s.m * s.m * (s.f + s.m + 1)) <= i64::MAX
    &&& 64 * (s.m * s.m * s.m * (s.f + s.m + 1)) <= usize::MAX
    &&& 64 * (s.m * ((s.f + s.m + 1) * (s.f + s.m + 1))) <= i64::MAX
}

/// `c₁`: the first column of `C_red`, `c₁[i] = c(i + 1, 1)`.
pub open spec fn c1_spec(s: Semigroup) -> Seq<i64> {
    Seq::new((s.m - 1) as nat, |i: int| kunz_spec(s.apery_set@, s.m as int, i + 1, 1) as i64)
}

/// `Σ_{a<k} U(m)[a][j]`.
pub open spec fn col_u(m: int, j: int, k: int) -> int
    decreases k,
{
    if k <= 0 { 0 } else { col_u(m, j, k - 1) + u_entry(m, k - 1, j) }
}

/// `1ᵀU(m)`: the column sums of `U(m)`.
pub open spec fn one_u_spec(m: int) -> Seq<i64> {
    Seq::new((m - 1) as nat, |j: int| col_u(m, j, m - 1) as i64)
}

/// `zd(m)`.
pub open spec fn zd_spec(m: int) -> Seq<i64> {
    Seq::new((m - 1) as nat, |b: int| zd_entry(m, b) as i64)
}

/// Row `a` of `D(m)`.
pub open spec fn d_row(m: int, a: int) -> Seq<i64> {
    Seq::new((m - 1) as nat, |b: int| d_entry(m, a, b) as i64)
}

/// `D(m)·c₁`.
pub open spec fn d_prod_spec(s: Semigroup) -> Seq<i64> {
    let m = s.m as int;
    Seq::new((m - 1) as nat, |a: int| sdot(d_row(m, a), c1_spec(s), m - 1) as i64)
}

/// Facts about the sizes under [`diag_fits`].
proof fn lemma_diag_sizes(s: Semigroup)
    requires
        s.wf(),
        diag_fits(s),
    ensures
        s.m * s.m <= i64::MAX / 64,
        2 * (s.f + s.m) <= i64::MAX / 64,
        (s.m - 1) * ((3 * s.m) * (2 * (s.f + s.m))) <= i64::MAX,
        (s.m - 1) * ((s.m * s.m) * (2 * (s.f + s.m))) <= i64::MAX,
        (s.m - 1) * (s.m * (2 * (s.f + s.m))) <= i64::MAX,
        s.m * (s.m * (2 * (s.f + s.m))) <= i64::MAX,
        (s.m - 1) * (s.m - 1) <= usize::MAX,
        s.m <= i64::MAX / 64,
        2 * s.m <= usize::MAX,
        s.g <= s.f + 1,
        s.r <= s.f,
        s.m * s.g + s.m * (s.m - 1) / 2 <= usize::MAX,
        s.m * s.g <= usize::MAX,
        s.m * (s.m - 1) <= usize::MAX,
        2 * s.f + s.m + 1 <= usize::MAX,
        2 * s.g + s.m <= usize::MAX,
        2 * s.f + 2 * s.m + 2 <= i64::MAX,
{
    crate::identities::lemma_genus_counts_gaps(s);
    crate::generated::lemma_count_le(crate::identities::gap_pred(s), s.f + 1);
    crate::generated::lemma_count_le(crate::semigroup::reflected_pred(s.gen_set@, s.f as int), s.f as int);
    assert(s.m * s.g <= s.m * (s.f + 1)) by (nonlinear_arith) requires s.g <= s.f + 1, s.m >= 0;
    assert(s.m * (s.f + 1) + s.m * s.m <= 4 * (s.m * (s.f + s.m))) by (nonlinear_arith) requires s.m >= 1, s.f >= 0;
    assert(s.m * (s.m - 1) / 2 <= s.m * s.m) by (nonlinear_arith) requires s.m >= 1;
    assert(s.m * (s.m - 1) <= s.m * s.m) by (nonlinear_arith) requires s.m >= 1;
    assert(2 * s.f + 2 * s.m + 2 <= 4 * (s.m * (s.f + s.m))) by (nonlinear_arith) requires s.m >= 2, s.f >= 0;
    let m = s.m as int;
    let f = s.f as int;
    let big = m * m * m * (f + m + 1);
    assert(m * m <= big) by (nonlinear_arith) requires m >= 2, f >= 0, big == m * m * m * (f + m + 1);
    assert(m <= m * m) by (nonlinear_arith) requires m >= 2;
    assert(2 * (f + m) <= big) by (nonlinear_arith) requires m >= 2, f >= 0, big == m * m * m * (f + m + 1);
    assert((m - 1) * ((3 * m) * (2 * (f + m))) <= 6 * big) by (nonlinear_arith) requires m >= 2, f >= 0, big == m * m * m * (f + m + 1);
    assert((m - 1) * ((m * m) * (2 * (f + m))) <= 2 * big) by (nonlinear_arith) requires m >= 2, f >= 0, big == m * m * m * (f + m + 1);
    assert((m - 1) * (m * (2 * (f + m))) <= 2 * big) by (nonlinear_arith) requires m >= 2, f >= 0, big == m * m * m * (f + m + 1);
    assert(m * (m * (2 * (f + m))) <= 2 * big) by (nonlinear_arith) requires m >= 2, f >= 0, big == m * m * m * (f + m + 1);
    assert((m - 1) * (m - 1) <= m * m) by (nonlinear_arith) requires m >= 2;
    assert(m * m <= usize::MAX) by (nonlinear_arith)
        requires 4 * (m * (f + m)) <= usize::MAX, m >= 1, f >= 0;
    assert(2 * m <= m * m) by (nonlinear_arith) requires m >= 2;
}

/// The size of one entry of `rn`.
proof fn lemma_rn_entry(s: Semigroup, i: int)
    requires
        s.wf(),
        diag_fits(s),
        0 <= i < s.m - 1,
    ensures
        0 <= r_i_spec(s.apery_set@, s.m as int, s.mu as int, i + 1) <= 2 * (s.f + s.m),
        0 <= class_gaps(s.apery_set@, s.m as int, i + 1) <= s.f + s.m,
        2 * (s.f + s.m) <= i64::MAX / 64,
        rv_spec(s)[i] as int == r_i_spec(s.apery_set@, s.m as int, s.mu as int, i + 1),
        nv_spec(s)[i] as int == class_gaps(s.apery_set@, s.m as int, i + 1) - r_i_spec(s.apery_set@, s.m as int, s.mu as int, i + 1),
{
    lemma_diag_sizes(s);
    let m = s.m as int;
    assert(0 <= s.mu < m) by (nonlinear_arith) requires s.mu == (s.f as int) % m, m >= 1;
        let j = (s.mu + m - (i + 1)) % m;
        assert(0 <= j) by (nonlinear_arith) requires m >= 1, j == (s.mu + m - (i + 1)) % m;
        crate::inspect::lemma_kunz_bound(s.apery_set@, m, s.f as int, i + 1, j);
        let w = s.apery_set@[i + 1] as int;
        assert(crate::semigroup::apery_min(s.gen_set@, m, w, i + 1));
        assert(w >= i + 1) by (nonlinear_arith) requires w % m == i + 1, w >= 0, m >= 1;
        assert(w <= s.f + s.m);
        let d = w - (i + 1);
        let q = d / m;
        let r = d % m;
        assert(d == m * q + r && 0 <= r < m) by (nonlinear_arith) requires m >= 1, q == d / m, r == d % m;
        assert(0 <= q <= d) by (nonlinear_arith) requires d == m * q + r, 0 <= r < m, d >= 0, m >= 1;
        assert(class_gaps(s.apery_set@, m, i + 1) == q);
}

/// The entries of `rn` are the integers they stand for.
proof fn lemma_rn_values(s: Semigroup)
    requires
        s.wf(),
        diag_fits(s),
    ensures
        forall|i: int| 0 <= i < s.m - 1 ==> #[trigger] rv_spec(s)[i] as int == r_i_spec(s.apery_set@, s.m as int, s.mu as int, i + 1),
        forall|i: int| 0 <= i < s.m - 1 ==> #[trigger] nv_spec(s)[i] as int
            == class_gaps(s.apery_set@, s.m as int, i + 1) - r_i_spec(s.apery_set@, s.m as int, s.mu as int, i + 1),
{
    lemma_diag_sizes(s);
    let m = s.m as int;
    assert(0 <= s.mu < m) by (nonlinear_arith) requires s.mu == (s.f as int) % m, m >= 1;
    assert forall|i: int| 0 <= i < s.m - 1 implies #[trigger] rv_spec(s)[i] as int == r_i_spec(s.apery_set@, m, s.mu as int, i + 1) by {
        lemma_rn_entry(s, i);
    }
    assert forall|i: int| 0 <= i < s.m - 1 implies #[trigger] nv_spec(s)[i] as int
        == class_gaps(s.apery_set@, m, i + 1) - r_i_spec(s.apery_set@, m, s.mu as int, i + 1) by {
        lemma_rn_entry(s, i);
    }
}

/// `c₁`, read from `C_red`.
fn c1_vec(sg: &Semigroup, cr: &DenseMatrix<usize>) -> (v: Vec<i64>)
    requires
        sg.wf(),
        diag_fits(*sg),
        cr.wf(),
        cr.rows_spec() == sg.m - 1,
        cr.cols_spec() == sg.m - 1,
        forall|a: int, b: int| 0 <= a < sg.m - 1 && 0 <= b < sg.m - 1
            ==> #[trigger] cr.at(a, b) == kunz_spec(sg.apery_set@, sg.m as int, a + 1, b + 1),
    ensures
        v@ == c1_spec(*sg),
        forall|i: int| 0 <= i < v@.len() ==> 0 <= #[trigger] v@[i] <= 2 * (sg.f + sg.m),
{
    proof {
        lemma_diag_sizes(*sg);
    }
    let n = sg.m - 1;
    let mut v: Vec<i64> = Vec::new();
    let mut i: usize = 0;
    while i < n
        invariant
            sg.wf(),
            diag_fits(*sg),
            2 * (sg.f + sg.m) <= i64::MAX / 64,
            n == sg.m - 1,
            cr.wf(),
            cr.rows_spec() == n,
            cr.cols_spec() == n,
            forall|a: int, b: int| 0 <= a < sg.m - 1 && 0 <= b < sg.m - 1
                ==> #[trigger] cr.at(a, b) == kunz_spec(sg.apery_set@, sg.m as int, a + 1, b + 1),
            i <= n,
            v@.len() == i,
            forall|j: int| 0 <= j < i ==> #[trigger] v@[j] == c1_spec(*sg)[j],
            forall|j: int| 0 <= j < i ==> 0 <= #[trigger] v@[j] <= 2 * (sg.f + sg.m),
        decreases n - i,
    {
        let x = cr.get(i, 0);
        proof {
            crate::inspect::lemma_kunz_bound(sg.apery_set@, sg.m as int, sg.f as int, i + 1, 1);
            assert(x == kunz_spec(sg.apery_set@, sg.m as int, i + 1, 0int + 1));
        }
        v.push(x as i64);
        i = i + 1;
    }
    proof {
        assert(v@ =~= c1_spec(*sg));
    }
    v
}

/// `1ᵀU(m)`, the column sums of `U(m)`.
fn one_u_vec(m: usize, u: &DenseMatrix<i64>) -> (v: Vec<i64>)
    requires
        is_square_of(*u, m as int, |a: int, b: int| u_entry(m as int, a, b)),
        matrix_size_ok(m as int),
        m * m <= i64::MAX / 64,
    ensures
        v@ == one_u_spec(m as int),
        forall|i: int| 0 <= i < v@.len() ==> iabs(#[trigger] v@[i] as int) <= m * m,
{
    let n = m - 1;
    let mut v: Vec<i64> = Vec::new();
    let mut j: usize = 0;
    while j < n
        invariant
            is_square_of(*u, m as int, |a: int, b: int| u_entry(m as int, a, b)),
            m >= 2,
            m * m <= i64::MAX / 64,
            n == m - 1,
            j <= n,
            v@.len() == j,
            forall|i: int| 0 <= i < j ==> #[trigger] v@[i] == one_u_spec(m as int)[i],
            forall|i: int| 0 <= i < j ==> iabs(#[trigger] v@[i] as int) <= m * m,
        decreases n - j,
    {
        let mut acc: i64 = 0;
        let mut a: usize = 0;
        while a < n
            invariant
                is_square_of(*u, m as int, |a: int, b: int| u_entry(m as int, a, b)),
                m >= 2,
                m * m <= i64::MAX / 64,
                n == m - 1,
                j < n,
                a <= n,
                acc == col_u(m as int, j as int, a as int),
                iabs(acc as int) <= a * m,
            decreases n - a,
        {
            let x = u.get(a, j);
            proof {
                assert(x as int == u_entry(m as int, a as int, j as int));
                assert(iabs(x as int) <= m);
                assert((a + 1) * m <= m * m) by (nonlinear_arith) requires a + 1 <= m;
                assert((a + 1) * m == a * m + m) by (nonlinear_arith);
            }
            acc = acc + x;
            a = a + 1;
        }
        proof {
            assert(n * m <= m * m) by (nonlinear_arith) requires n <= m;
        }
        v.push(acc);
        j = j + 1;
    }
    proof {
        assert(v@ =~= one_u_spec(m as int));
    }
    v
}

/// The first row of a `1 × n` matrix.
fn first_row(zd: &DenseMatrix<i64>, n: usize) -> (v: Vec<i64>)
    requires
        zd.wf(),
        zd.rows_spec() == 1,
        zd.cols_spec() == n,
    ensures
        v@ == Seq::new(n as nat, |b: int| zd.at(0, b)),
{
    let mut v: Vec<i64> = Vec::new();
    let mut b: usize = 0;
    while b < n
        invariant
            zd.wf(),
            zd.rows_spec() == 1,
            zd.cols_spec() == n,
            b <= n,
            v@.len() == b,
            forall|i: int| 0 <= i < b ==> #[trigger] v@[i] == zd.at(0, i),
        decreases n - b,
    {
        v.push(zd.get(0, b));
        b = b + 1;
    }
    proof {
        assert(v@ =~= Seq::new(n as nat, |b: int| zd.at(0, b)));
    }
    v
}

/// `D(m)·c₁`.
fn d_prod_vec(sg: &Semigroup, d: &DenseMatrix<i64>, c1: &Vec<i64>) -> (v: Vec<i64>)
    requires
        sg.wf(),
        diag_fits(*sg),
        is_square_of(*d, sg.m as int, |a: int, b: int| d_entry(sg.m as int, a, b)),
        c1@ == c1_spec(*sg),
        forall|i: int| 0 <= i < c1@.len() ==> 0 <= #[trigger] c1@[i] <= 2 * (sg.f + sg.m),
    ensures
        v@ == d_prod_spec(*sg),
{
    proof {
        lemma_diag_sizes(*sg);
    }
    let n = sg.m - 1;
    let rows = rows_from_matrix(d);
    proof {
        assert(rows_of_vecs(rows@).len() == rows@.len());
    }
    let mut v: Vec<i64> = Vec::new();
    let mut a: usize = 0;
    while a < n
        invariant
            sg.wf(),
            diag_fits(*sg),
            rows@.len() == n,
            (sg.m - 1) * ((3 * sg.m) * (2 * (sg.f + sg.m))) <= i64::MAX,
            n == sg.m - 1,
            rows_of_vecs(rows@) == matrix_rows(*d),
            is_square_of(*d, sg.m as int, |a: int, b: int| d_entry(sg.m as int, a, b)),
            c1@ == c1_spec(*sg),
            forall|i: int| 0 <= i < c1@.len() ==> 0 <= #[trigger] c1@[i] <= 2 * (sg.f + sg.m),
            a <= n,
            v@.len() == a,
            forall|i: int| 0 <= i < a ==> #[trigger] v@[i] == d_prod_spec(*sg)[i],
        decreases n - a,
    {
        let row = &rows[a];
        proof {
            assert(rows_of_vecs(rows@)[a as int] == row@);
            assert forall|i: int| 0 <= i < row@.len() implies #[trigger] row@[i] == d_row(sg.m as int, a as int)[i]
                && iabs(row@[i] as int) <= 3 * sg.m by {
                assert(row@[i] == d.at(a as int, i));
                assert(d.at(a as int, i) as int == d_entry(sg.m as int, a as int, i));
            }
            assert(row@ =~= d_row(sg.m as int, a as int));
            assert forall|i: int| 0 <= i < c1@.len() implies iabs(#[trigger] c1@[i] as int) <= 2 * (sg.f + sg.m) by {}
        }
        let x = dot(row, c1, Ghost(3 * sg.m as int), Ghost(2 * (sg.f + sg.m) as int));
        v.push(x);
        a = a + 1;
    }
    proof {
        assert(v@ =~= d_prod_spec(*sg));
    }
    v
}

/// `Σ_{l<k} U(m)[a][l] · c(l + 1, b + 1)`: an entry of `U(m)·C_red`.
pub open spec fn uc_dot(s: Semigroup, a: int, b: int, k: int) -> int
    decreases k,
{
    if k <= 0 {
        0
    } else {
        uc_dot(s, a, b, k - 1) + u_entry(s.m as int, a, k - 1) * kunz_spec(s.apery_set@, s.m as int, k, b + 1)
    }
}

/// The rows of `U(m)·C_red`.
pub open spec fn uc_rows(s: Semigroup) -> Seq<Seq<i64>> {
    square_rows((s.m - 1) as nat, |a: int, b: int| uc_dot(s, a, b, s.m - 1))
}

/// The product entries computed from `C_red` are the entries of [`uc_dot`].
pub(crate) proof fn lemma_u_dot_is_uc(s: Semigroup, c: DenseMatrix<usize>, a: int, b: int, k: int)
    requires
        s.wf(),
        s.m >= 2,
        0 <= k <= s.m - 1,
        0 <= b < s.m - 1,
        forall|x: int, y: int| 0 <= x < s.m - 1 && 0 <= y < s.m - 1
            ==> #[trigger] c.at(x, y) == kunz_spec(s.apery_set@, s.m as int, x + 1, y + 1),
    ensures
        u_dot(c, s.m as int, a, b, k) == uc_dot(s, a, b, k),
    decreases k,
{
    if k > 0 {
        lemma_u_dot_is_uc(s, c, a, b, k - 1);
        assert(c.at(k - 1, b) == kunz_spec(s.apery_set@, s.m as int, k - 1 + 1, b + 1));
    }
}

/// Column totals of `C_red` are at most `k · 2(f + m)`.
proof fn lemma_col_total_bound(s: Semigroup, c: DenseMatrix<usize>, b: int, k: int)
    requires
        s.wf(),
        s.m >= 2,
        0 <= k <= s.m - 1,
        0 <= b < s.m - 1,
        forall|x: int, y: int| 0 <= x < s.m - 1 && 0 <= y < s.m - 1
            ==> #[trigger] c.at(x, y) == kunz_spec(s.apery_set@, s.m as int, x + 1, y + 1),
    ensures
        0 <= col_total(c, b, k) <= k * (2 * (s.f + s.m)),
    decreases k,
{
    if k > 0 {
        lemma_col_total_bound(s, c, b, k - 1);
        crate::inspect::lemma_kunz_bound(s.apery_set@, s.m as int, s.f as int, k, b + 1);
        assert(c.at(k - 1, b) == kunz_spec(s.apery_set@, s.m as int, k - 1 + 1, b + 1));
        assert((k - 1) * (2 * (s.f + s.m)) + 2 * (s.f + s.m) == k * (2 * (s.f + s.m))) by (nonlinear_arith);
    } else {
        assert(0 * (2 * (s.f + s.m)) == 0) by (nonlinear_arith);
    }
}

/// The rows of `U(m)·C_red`, computed by [`u_times_c_red`] from `C_red`.
fn uc_table_rows(sg: &Semigroup, cr: &DenseMatrix<usize>) -> (rows: Vec<Vec<i64>>)
    requires
        sg.wf(),
        diag_fits(*sg),
        cr.wf(),
        cr.rows_spec() == sg.m - 1,
        cr.cols_spec() == sg.m - 1,
        forall|a: int, b: int| 0 <= a < sg.m - 1 && 0 <= b < sg.m - 1
            ==> #[trigger] cr.at(a, b) == kunz_spec(sg.apery_set@, sg.m as int, a + 1, b + 1),
    ensures
        rows_of_vecs(rows@) == uc_rows(*sg),
        forall|a: int| 0 <= a < rows@.len() && rows@[a]@.len() > 0 ==> #[trigger] rows@[a]@[0] <= usize::MAX,
{
    proof {
        lemma_diag_sizes(*sg);
        let n = sg.m - 1;
        assert forall|b: int| 0 <= b < cr.cols_spec() implies (cr.rows_spec() + 1) * #[trigger] col_total(*cr, b, cr.rows_spec() as int) <= i64::MAX by {
            lemma_col_total_bound(*sg, *cr, b, n as int);
            let t = col_total(*cr, b, n as int);
            assert((n + 1) * t <= sg.m * (sg.m * (2 * (sg.f + sg.m)))) by (nonlinear_arith)
                requires 0 <= t <= n * (2 * (sg.f + sg.m)), n + 1 == sg.m, n <= sg.m, sg.f >= 0;
        }
    }
    let p = u_times_c_red(cr);
    let rows = rows_from_matrix(&p);
    proof {
        let n = (sg.m - 1) as int;
        assert forall|a: int| 0 <= a < n implies #[trigger] matrix_rows(p)[a] == uc_rows(*sg)[a] by {
            assert forall|b: int| 0 <= b < n implies matrix_rows(p)[a][b] == uc_rows(*sg)[a][b] by {
                lemma_u_dot_is_uc(*sg, *cr, a, b, n);
                assert(p.at(a, b) as int == uc_dot(*sg, a, b, n));
            }
            assert(matrix_rows(p)[a] =~= uc_rows(*sg)[a]);
        }
        assert(matrix_rows(p) =~= uc_rows(*sg));
        assert forall|a: int| 0 <= a < rows@.len() && rows@[a]@.len() > 0 implies #[trigger] rows@[a]@[0] <= usize::MAX by {
            assert(rows_of_vecs(rows@)[a] == rows@[a]@);
            assert(rows@[a]@[0] == p.at(a, 0));
            lemma_u_dot_is_uc(*sg, *cr, a, 0, n);
            lemma_uc_bound(*sg, a, 0, n);
            let big = sg.m * sg.m * sg.m * (sg.f + sg.m + 1);
            assert(n * (sg.m * (2 * (sg.f + sg.m))) <= 2 * big) by (nonlinear_arith)
                requires n + 1 == sg.m, sg.m >= 2, sg.f >= 0, big == sg.m * sg.m * sg.m * (sg.f + sg.m + 1);
        }
    }
    rows
}

/// Entries of `U(m)·C_red` are at most `k · m · 2(f + m)` in size.
proof fn lemma_uc_bound(s: Semigroup, a: int, b: int, k: int)
    requires
        s.wf(),
        s.m >= 2,
        0 <= a < s.m - 1,
        0 <= k <= s.m - 1,
    ensures
        iabs(uc_dot(s, a, b, k)) <= k * (s.m * (2 * (s.f + s.m))),
    decreases k,
{
    if k > 0 {
        lemma_uc_bound(s, a, b, k - 1);
        crate::inspect::lemma_kunz_bound(s.apery_set@, s.m as int, s.f as int, k, b + 1);
        let u = u_entry(s.m as int, a, k - 1);
        let c = kunz_spec(s.apery_set@, s.m as int, k, b + 1);
        let bound = 2 * (s.f + s.m);
        assert(iabs(u) <= s.m);
        assert(iabs(u * c) <= s.m * bound) by (nonlinear_arith)
            requires iabs(u) <= s.m, 0 <= c <= bound;
        assert((k - 1) * (s.m * bound) + s.m * bound == k * (s.m * bound)) by (nonlinear_arith);
    } else {
        assert(0 * (s.m * (2 * (s.f + s.m))) == 0) by (nonlinear_arith);
    }
}

/// `<td>1</td>` `k` times.
pub open spec fn ones_tds(k: nat) -> Seq<char> {
    concat_n(k, |i: int| "<td>1</td>"@)
}

/// A vector table row spanning all columns: `<td colspan="dim">v</td>`.
pub open spec fn span_td(dim: nat, v: int) -> Seq<char> {
    "<td colspan=\""@ + dec(dim) + "\">"@ + int_text(v) + "</td>"@
}

/// The table of `1`, `1ᵀU(m)`, `c₁`, `1ᵀU(m)·c₁` and `mg + (m − 1)m/2`.
pub open spec fn one_vec_text(one_u: Seq<i64>, c1: Seq<i64>, apery_sum: int) -> Seq<char> {
    let dim = one_u.len();
    "<table class=\"classify-table u-matrix-table\"><thead><tr><th></th>"@ + one_based_header(dim)
        + "</tr></thead><tbody><tr><th>one</th>"@ + ones_tds(dim) + "</tr><tr><th>one\u{b7}U(m)</th>"@ + tds(one_u)
        + "</tr><tr><th>c<sub>1</sub></th>"@ + tds(c1) + "</tr><tr><th>one\u{b7}U(m)\u{b7}c<sub>1</sub></th>"@
        + span_td(dim, sdot(one_u, c1, dim as int)) + "</tr><tr><th>mg + (m\u{2212}1)m/2</th>"@ + span_td(dim, apery_sum)
        + "</tr></tbody></table>"@
}

/// The table of `c₁`, `zd(m)`, `D(m)·c₁`, `zd(m)·c₁`, `f + m + r` and `2g + m − 1`.
pub open spec fn d_prod_text(zd: Seq<i64>, d_prod: Seq<i64>, c1: Seq<i64>, fmr: int, two_g: int) -> Seq<char> {
    let dim = d_prod.len();
    "<table class=\"classify-table u-matrix-table\"><thead><tr><th></th>"@ + one_based_header(dim)
        + "</tr></thead><tbody>"@ + "<tr><th>c<sub>1</sub></th>"@ + tds(c1) + "</tr><tr><th>zd(m)</th>"@ + tds(zd)
        + "</tr><tr><th>D(m)\u{b7}c<sub>1</sub></th>"@ + tds(d_prod) + "</tr><tr><th>zd(m)\u{b7}c<sub>1</sub></th>"@
        + span_td(dim, sdot(zd, c1, dim as int)) + "</tr><tr><th>f+m+r</th>"@ + span_td(dim, fmr)
        + "</tr><tr><th>2g+m\u{2212}1</th>"@ + span_td(dim, two_g) + "</tr></tbody></table>"@
}

/// Appends `<th>1</th>…<th>k</th>`.
fn push_one_based_header(out: &mut String, k: usize)
    ensures
        final(out)@ == old(out)@ + one_based_header(k as nat),
{
    let ghost start = out@;
    let ghost hf = |b: int| "<th>"@ + dec((b + 1) as nat) + "</th>"@;
    let mut b: usize = 0;
    while b < k
        invariant
            b <= k,
            hf == (|b: int| "<th>"@ + dec((b + 1) as nat) + "</th>"@),
            out@ == start + concat_n(b as nat, hf),
        decreases k - b,
    {
        out.append("<th>");
        push_u64_plus_one(out, b);
        out.append("</th>");
        proof {
            assert(concat_n((b + 1) as nat, hf) == concat_n(b as nat, hf) + hf(b as int));
            assert(out@ =~= start + concat_n((b + 1) as nat, hf));
        }
        b = b + 1;
    }
    proof {
        assert(one_based_header(k as nat) == concat_n(k as nat, hf));
    }
}

/// Appends `<td colspan="dim">v</td>`.
fn push_span_td(out: &mut String, dim: usize, v: i64)
    ensures
        final(out)@ == old(out)@ + span_td(dim as nat, v as int),
{
    out.append("<td colspan=\"");
    push_usize(out, dim);
    out.append("\">");
    push_int(out, v);
    out.append("</td>");
    proof {
        assert(final(out)@ =~= old(out)@ + span_td(dim as nat, v as int));
    }
}

/// Appends the table of `1ᵀU(m)` and `c₁`.
fn push_one_vec(out: &mut String, one_u: &Vec<i64>, c1: &Vec<i64>, scalar: i64, apery_sum: i64)
    requires
        one_u@.len() == c1@.len(),
        scalar == sdot(one_u@, c1@, one_u@.len() as int),
    ensures
        final(out)@ == old(out)@ + one_vec_text(one_u@, c1@, apery_sum as int),
{
    let dim = one_u.len();
    out.append("<table class=\"classify-table u-matrix-table\"><thead><tr><th></th>");
    push_one_based_header(out, dim);
    out.append("</tr></thead><tbody><tr><th>one</th>");
    let ghost start = out@;
    let ghost of = |i: int| "<td>1</td>"@;
    let mut i: usize = 0;
    while i < dim
        invariant
            i <= dim,
            of == (|i: int| "<td>1</td>"@),
            out@ == start + concat_n(i as nat, of),
        decreases dim - i,
    {
        out.append("<td>1</td>");
        proof {
            assert(concat_n((i + 1) as nat, of) == concat_n(i as nat, of) + of(i as int));
        }
        i = i + 1;
    }
    proof {
        assert(ones_tds(dim as nat) == concat_n(dim as nat, of));
    }
    out.append("</tr><tr><th>one\u{b7}U(m)</th>");
    push_tds(out, one_u);
    out.append("</tr><tr><th>c<sub>1</sub></th>");
    push_tds(out, c1);
    out.append("</tr><tr><th>one\u{b7}U(m)\u{b7}c<sub>1</sub></th>");
    push_span_td(out, dim, scalar);
    out.append("</tr><tr><th>mg + (m\u{2212}1)m/2</th>");
    push_span_td(out, dim, apery_sum);
    out.append("</tr></tbody></table>");
    proof {
        assert(final(out)@ =~= old(out)@ + one_vec_text(one_u@, c1@, apery_sum as int));
    }
}

/// Appends the table of `zd(m)`, `D(m)·c₁` and the identity `zd(m)·c₁ = f + m + r`.
fn push_d_prod(out: &mut String, zd: &Vec<i64>, d_prod: &Vec<i64>, c1: &Vec<i64>, zd_dot: i64, fmr: i64, two_g: i64)
    requires
        zd@.len() == d_prod@.len(),
        zd_dot == sdot(zd@, c1@, d_prod@.len() as int),
    ensures
        final(out)@ == old(out)@ + d_prod_text(zd@, d_prod@, c1@, fmr as int, two_g as int),
{
    let dim = d_prod.len();
    out.append("<table class=\"classify-table u-matrix-table\"><thead><tr><th></th>");
    push_one_based_header(out, dim);
    out.append("</tr></thead><tbody>");
    out.append("<tr><th>c<sub>1</sub></th>");
    push_tds(out, c1);
    out.append("</tr><tr><th>zd(m)</th>");
    push_tds(out, zd);
    out.append("</tr><tr><th>D(m)\u{b7}c<sub>1</sub></th>");
    push_tds(out, d_prod);
    out.append("</tr><tr><th>zd(m)\u{b7}c<sub>1</sub></th>");
    push_span_td(out, dim, zd_dot);
    out.append("</tr><tr><th>f+m+r</th>");
    push_span_td(out, dim, fmr);
    out.append("</tr><tr><th>2g+m\u{2212}1</th>");
    push_span_td(out, dim, two_g);
    out.append("</tr></tbody></table>");
    proof {
        assert(final(out)@ =~= old(out)@ + d_prod_text(zd@, d_prod@, c1@, fmr as int, two_g as int));
    }
}

/// `(r_1, …, r_{m−1})`.
pub open spec fn rv_spec(s: Semigroup) -> Seq<i64> {
    Seq::new((s.m - 1) as nat, |k: int| r_i_spec(s.apery_set@, s.m as int, s.mu as int, k + 1) as i64)
}

/// `(n_1, …, n_{m−1})` with `n_i = q_i − r_i` and `q_i = (w_i − i)/m`.
pub open spec fn nv_spec(s: Semigroup) -> Seq<i64> {
    Seq::new((s.m - 1) as nat, |k: int|
        (class_gaps(s.apery_set@, s.m as int, k + 1) - r_i_spec(s.apery_set@, s.m as int, s.mu as int, k + 1)) as i64)
}

/// `rn = (r_1, …, r_{m−1}, n_1, …, n_{m−1}, 1)`.
pub open spec fn rn_spec(s: Semigroup) -> Seq<i64> {
    rv_spec(s) + nv_spec(s) + seq![1i64]
}

/// Row `row`, column `col` of `RSym`: for `row < m − 1` (the class
/// `i = row + 1`), `+1` at `r_i` and `−1` at `r_j`, `j = (μ − i) mod m`,
/// cancelling when `j = 0`; the last row is `(1, …, 1, −g)`.
pub open spec fn rsym_entry(m: int, mu: int, g: int, row: int, col: int) -> int {
    let dim = m - 1;
    if row < dim {
        let j = (mu + m - (row + 1)) % m;
        ind(col == row) - (if j == 0 { ind(col == row) } else { ind(col == j - 1) })
    } else if col < 2 * dim {
        1
    } else {
        -g
    }
}

/// Row `row` of `RSym`.
pub open spec fn rsym_row(s: Semigroup, row: int) -> Seq<i64> {
    Seq::new((2 * s.m - 1) as nat, |col: int| rsym_entry(s.m as int, s.mu as int, s.g as int, row, col) as i64)
}

/// The header of the `rn` tables: the title, `r_1 … r_{m−1}` (the one of
/// `μ` with `mu_class` when that is given), `n_1 … n_{m−1}`, and `pad`
/// when it is given.
pub open spec fn rn_header(title: Seq<char>, m: int, mu: int, mu_class: Seq<char>, pad: Seq<char>) -> Seq<char> {
    "<th>"@ + title + "</th>"@
        + concat_n((m - 1) as nat, |k: int| "<th"@ + (if k + 1 == mu && mu_class.len() > 0 { " class=\""@ + mu_class + "\""@ } else { ""@ })
            + ">r<sub>"@ + dec((k + 1) as nat) + "</sub></th>"@)
        + concat_n((m - 1) as nat, |k: int| "<th>n<sub>"@ + dec((k + 1) as nat) + "</sub></th>"@)
        + (if pad.len() > 0 { "<th>"@ + pad + "</th>"@ } else { ""@ })
}

/// The table of `rn`, the `r_μ` cell marked.
pub open spec fn rn_table_text(s: Semigroup) -> Seq<char> {
    let rv = rv_spec(s);
    "<div class=\"table-wrap\"><table class=\"classify-table u-matrix-table\"><thead><tr>"@
        + rn_header("rn"@, s.m as int, s.mu as int, "rn-mu"@, "1"@) + "</tr></thead><tbody><tr><th></th>"@
        + concat_n(rv.len(), |k: int| "<td"@ + (if k + 1 == s.mu { " class=\"rn-mu\""@ } else { ""@ }) + ">"@ + int_text(rv[k] as int) + "</td>"@)
        + tds(nv_spec(s)) + "<td>1</td>"@ + "</tr></tbody></table></div>"@
}

/// The table of `RSym`; the last entry `−g` is written in full.
pub open spec fn rsym_table_text(s: Semigroup) -> Seq<char> {
    let m = s.m as int;
    let cols = 2 * m - 1;
    "<div class=\"table-wrap\"><table class=\"classify-table u-matrix-table\"><thead><tr>"@
        + rn_header("RSym"@, m, 0, ""@, "1"@) + "</tr></thead><tbody>"@
        + concat_n(m as nat, |row: int| "<tr><th>"@ + (if row + 1 == m { ""@ } else { dec((row + 1) as nat) }) + "</th>"@
            + concat_n(cols as nat, |col: int| if row + 1 == m && col + 1 == cols {
                "<td>\u{2212}"@ + dec(s.g as nat) + "</td>"@
            } else {
                pm_text(rsym_entry(m, s.mu as int, s.g as int, row, col))
            }) + "</tr>"@)
        + "</tbody></table></div>"@
}

/// The table of `RSym·rn`: every entry is 0, so it ends with a check mark.
pub open spec fn rsym_prod_text(s: Semigroup) -> Seq<char> {
    let m = s.m as int;
    "<div class=\"table-wrap\"><table class=\"classify-table u-matrix-table\"><thead><tr><th>RSym\u{b7}rn</th>"@
        + one_based_header((m - 1) as nat) + "<th>\u{03a3}</th>"@ + "<th>= 0?</th></tr></thead><tbody><tr><th></th>"@
        + concat_n(m as nat, |k: int| td_int(0)) + "<td>"@ + "\u{2713}"@ + "</td></tr></tbody></table></div>"@
}

/// The `rn` block: the table of `rn`, the matrix `RSym` and their product.
pub open spec fn rn_block_text(s: Semigroup) -> Seq<char> {
    rn_table_text(s) + rsym_table_text(s) + rsym_prod_text(s)
}

/// A row with `+1` at `p` and `−1` at `q` picks out `y[p] − y[q]`.
proof fn lemma_sdot_pick(x: Seq<i64>, y: Seq<i64>, k: int, p: int, q: int)
    requires
        0 <= k <= x.len(),
        k <= y.len(),
        forall|c: int| 0 <= c < x.len() ==> #[trigger] x[c] as int == ind(c == p) - ind(c == q),
    ensures
        sdot(x, y, k) == (if 0 <= p < k { y[p] as int } else { 0 }) - (if 0 <= q < k { y[q] as int } else { 0 }),
    decreases k,
{
    if k > 0 {
        lemma_sdot_pick(x, y, k - 1, p, q);
        let xi = x[k - 1] as int;
        let yi = y[k - 1] as int;
        assert(xi == (if k - 1 == p { 1int } else { 0int }) - (if k - 1 == q { 1int } else { 0int }));
        assert(xi * yi == (if k - 1 == p { yi } else { 0int }) - (if k - 1 == q { yi } else { 0int })) by (nonlinear_arith)
            requires xi == (if k - 1 == p { 1int } else { 0int }) - (if k - 1 == q { 1int } else { 0int });
    }
}

/// A row of ones picks out the sum.
proof fn lemma_sdot_ones(x: Seq<i64>, y: Seq<i64>, k: int)
    requires
        0 <= k <= x.len(),
        k <= y.len(),
        forall|c: int| 0 <= c < k ==> #[trigger] x[c] == 1,
    ensures
        sdot(x, y, k) == sdot(Seq::new(k as nat, |c: int| 1i64), y, k),
    decreases k,
{
    if k > 0 {
        lemma_sdot_ones(x, y, k - 1);
        lemma_sdot_ones(Seq::new(k as nat, |c: int| 1i64), y, k - 1);
        lemma_sdot_prefix(Seq::new(k as nat, |c: int| 1i64), Seq::new((k - 1) as nat, |c: int| 1i64), y, k - 1);
    }
}

/// Dot products over a prefix depend only on the prefix.
proof fn lemma_sdot_prefix(x: Seq<i64>, z: Seq<i64>, y: Seq<i64>, k: int)
    requires
        0 <= k,
        k <= x.len(),
        k <= z.len(),
        forall|c: int| 0 <= c < k ==> #[trigger] x[c] == z[c],
    ensures
        sdot(x, y, k) == sdot(z, y, k),
    decreases k,
{
    if k > 0 {
        lemma_sdot_prefix(x, z, y, k - 1);
        assert(x[k - 1] == z[k - 1]);
    }
}

/// `Σ_{c<k} y[c]`.
pub open spec fn ssum(y: Seq<i64>, k: int) -> int
    decreases k,
{
    if k <= 0 { 0 } else { ssum(y, k - 1) + y[k - 1] }
}

/// A dot product with ones is the sum.
proof fn lemma_sdot_ones_sum(y: Seq<i64>, k: int)
    requires
        0 <= k <= y.len(),
    ensures
        sdot(Seq::new(k as nat, |c: int| 1i64), y, k) == ssum(y, k),
    decreases k,
{
    if k > 0 {
        lemma_sdot_prefix(Seq::new(k as nat, |c: int| 1i64), Seq::new((k - 1) as nat, |c: int| 1i64), y, k - 1);
        lemma_sdot_ones_sum(y, k - 1);
        assert(Seq::new(k as nat, |c: int| 1i64)[k - 1] == 1i64);
    }
}

/// The sum over `a + b` splits.
proof fn lemma_ssum_concat(a: Seq<i64>, b: Seq<i64>, k: int)
    requires
        0 <= k <= b.len(),
    ensures
        ssum(a + b, a.len() + k) == ssum(a, a.len() as int) + ssum(b, k),
    decreases k,
{
    if k > 0 {
        lemma_ssum_concat(a, b, k - 1);
        assert((a + b)[a.len() + k - 1] == b[k - 1]);
    } else {
        lemma_ssum_prefix(a + b, a, a.len() as int);
    }
}

/// Sums over a prefix depend only on the prefix.
proof fn lemma_ssum_prefix(x: Seq<i64>, z: Seq<i64>, k: int)
    requires
        0 <= k,
        k <= x.len(),
        k <= z.len(),
        forall|c: int| 0 <= c < k ==> #[trigger] x[c] == z[c],
    ensures
        ssum(x, k) == ssum(z, k),
    decreases k,
{
    if k > 0 {
        lemma_ssum_prefix(x, z, k - 1);
        assert(x[k - 1] == z[k - 1]);
    }
}

/// `Σ r_i + Σ (q_i − r_i) = Σ_{i<k} q_{i+1}`.
proof fn lemma_rn_sums(s: Semigroup, k: int)
    requires
        s.wf(),
        diag_fits(s),
        0 <= k <= s.m - 1,
        forall|i: int| 0 <= i < s.m - 1 ==> #[trigger] rv_spec(s)[i] as int == r_i_spec(s.apery_set@, s.m as int, s.mu as int, i + 1),
        forall|i: int| 0 <= i < s.m - 1 ==> #[trigger] nv_spec(s)[i] as int
            == class_gaps(s.apery_set@, s.m as int, i + 1) - r_i_spec(s.apery_set@, s.m as int, s.mu as int, i + 1),
    ensures
        ssum(rv_spec(s), k) + ssum(nv_spec(s), k) == gap_total(s.apery_set@, s.m as int, k + 1) - class_gaps(s.apery_set@, s.m as int, 0),
    decreases k,
{
    if k > 0 {
        lemma_rn_sums(s, k - 1);
        assert(rv_spec(s)[k - 1] as int + nv_spec(s)[k - 1] as int == class_gaps(s.apery_set@, s.m as int, k));
    } else {
        assert(gap_total(s.apery_set@, s.m as int, 0) == 0);
    }
}

/// `r_i` and `n_i` for `i = 1, …, m − 1`.
fn rn_vectors(sg: &Semigroup) -> (r: (Vec<i64>, Vec<i64>))
    requires
        sg.wf(),
        diag_fits(*sg),
    ensures
        r.0@ == rv_spec(*sg),
        r.1@ == nv_spec(*sg),
        forall|i: int| 0 <= i < r.0@.len() ==> 0 <= #[trigger] r.0@[i] <= 2 * (sg.f + sg.m),
        forall|i: int| 0 <= i < r.1@.len() ==> iabs(#[trigger] r.1@[i] as int) <= 3 * (sg.f + sg.m),
{
    proof {
        lemma_diag_sizes(*sg);
    }
    let m = sg.m;
    let mut rv: Vec<i64> = Vec::new();
    let mut nv: Vec<i64> = Vec::new();
    let mut i: usize = 1;
    while i < m
        invariant
            sg.wf(),
            diag_fits(*sg),
            2 * (sg.f + sg.m) <= i64::MAX / 64,
            m == sg.m,
            1 <= i <= m,
            rv@.len() == i - 1,
            nv@.len() == i - 1,
            forall|k: int| 0 <= k < i - 1 ==> #[trigger] rv@[k] == rv_spec(*sg)[k],
            forall|k: int| 0 <= k < i - 1 ==> #[trigger] nv@[k] == nv_spec(*sg)[k],
            forall|k: int| 0 <= k < i - 1 ==> 0 <= #[trigger] rv@[k] <= 2 * (sg.f + sg.m),
            forall|k: int| 0 <= k < i - 1 ==> iabs(#[trigger] nv@[k] as int) <= 3 * (sg.f + sg.m),
        decreases m - i,
    {
        let r = sg.r_i(i);
        let w = sg.apery_set[i];
        proof {
            assert(crate::semigroup::apery_min(sg.gen_set@, m as int, w as int, i as int));
            assert(w >= i) by (nonlinear_arith) requires w % m == i, w >= 0, m >= 1;
            assert(w <= sg.f + sg.m);
            assert(0 <= (w - i) / (m as int) <= sg.f + sg.m) by (nonlinear_arith)
                requires w >= i, w <= sg.f + sg.m, m >= 1;
            assert(sg.mu < sg.m) by (nonlinear_arith) requires sg.mu == sg.f % sg.m, sg.m >= 1;
            assert(0 <= (sg.mu + sg.m - i) % (sg.m as int)) by (nonlinear_arith) requires sg.m >= 1;
            crate::inspect::lemma_kunz_bound(sg.apery_set@, m as int, sg.f as int, i as int, (sg.mu + sg.m - i) % (sg.m as int));
        }
        let q = ((w - i) / m) as i64;
        rv.push(r as i64);
        nv.push(q - r as i64);
        i = i + 1;
    }
    proof {
        assert(rv@ =~= rv_spec(*sg));
        assert(nv@ =~= nv_spec(*sg));
    }
    (rv, nv)
}

/// Row `row` of `RSym`.
fn rsym_row_exec(sg: &Semigroup, row: usize) -> (v: Vec<i64>)
    requires
        sg.wf(),
        diag_fits(*sg),
        row < sg.m,
    ensures
        v@ == rsym_row(*sg, row as int),
{
    proof {
        lemma_diag_sizes(*sg);
        assert(sg.mu < sg.m) by (nonlinear_arith) requires sg.mu == sg.f % sg.m, sg.m >= 1;
        crate::identities::lemma_genus_counts_gaps(*sg);
        crate::generated::lemma_count_le(crate::identities::gap_pred(*sg), sg.f + 1);
    }
    let m = sg.m;
    let dim = m - 1;
    let cols = 2 * m - 1;
    let mut v: Vec<i64> = Vec::new();
    let mut col: usize = 0;
    while col < cols
        invariant
            sg.wf(),
            m == sg.m,
            m >= 2,
            m <= i64::MAX / 64,
            sg.mu < m,
            sg.g <= sg.f + 1,
            2 * (sg.f + sg.m) <= i64::MAX / 64,
            dim == m - 1,
            cols == 2 * m - 1,
            row < m,
            col <= cols,
            v@.len() == col,
            forall|c: int| 0 <= c < col ==> #[trigger] v@[c] == rsym_row(*sg, row as int)[c],
        decreases cols - col,
    {
        let x: i64 = if row < dim {
            let j = (sg.mu + m - (row + 1)) % m;
            let plus: i64 = if col == row { 1 } else { 0 };
            let minus: i64 = if j == 0 {
                if col == row { 1 } else { 0 }
            } else {
                if col == j - 1 { 1 } else { 0 }
            };
            plus - minus
        } else if col < 2 * dim {
            1
        } else {
            -(sg.g as i64)
        };
        v.push(x);
        col = col + 1;
    }
    proof {
        assert(v@ =~= rsym_row(*sg, row as int));
    }
    v
}

/// `RSym · rn` vanishes: each of the first `m − 1` rows gives
/// `r_i − r_j` with `i + j ≡ μ`, and the last gives `Σ q_i − g`.
proof fn lemma_rsym_rn(s: Semigroup, row: int)
    requires
        s.wf(),
        diag_fits(s),
        0 <= row < s.m,
    ensures
        sdot(rsym_row(s, row), rn_spec(s), 2 * s.m - 1) == 0,
{
    let m = s.m as int;
    let mu = s.mu as int;
    let dim = m - 1;
    let x = rsym_row(s, row);
    let y = rn_spec(s);
    assert(0 <= mu < m) by (nonlinear_arith) requires mu == (s.f as int) % m, m >= 1;
    assert(y.len() == 2 * m - 1);
    if row < dim {
        let j = (mu + m - (row + 1)) % m;
        assert(0 <= j < m) by (nonlinear_arith) requires m >= 1, j == (mu + m - (row + 1)) % m;
        if j == 0 {
            lemma_sdot_pick(x, y, 2 * m - 1, row, row);
        } else {
            lemma_sdot_pick(x, y, 2 * m - 1, row, j - 1);
            crate::identities::lemma_r_i_symmetric(s, row + 1);
            lemma_rn_values(s);
            assert(y[row] == rv_spec(s)[row]);
            assert(y[j - 1] == rv_spec(s)[j - 1]);
        }
    } else {
        let cols = 2 * m - 1;
        lemma_diag_sizes(s);
        let ones = Seq::new((cols - 1) as nat, |c: int| 1i64);
        assert(sdot(x, y, cols) == sdot(x, y, cols - 1) + x[cols - 1] * y[cols - 1]);
        assert(x[cols - 1] == -(s.g as int));
        assert(y[cols - 1] == 1);
        lemma_sdot_prefix(x, ones, y, cols - 1);
        lemma_sdot_ones_sum(y, cols - 1);
        let rv = rv_spec(s);
        let nv = nv_spec(s);
        lemma_ssum_prefix(y, rv + nv, cols - 1);
        lemma_ssum_concat(rv, nv, dim);
        lemma_rn_values(s);
        lemma_rn_sums(s, dim);
        crate::identities::lemma_genus_class_sum(s);
        assert(sdot(x, y, cols - 1) == s.g);
        assert(x[cols - 1] * y[cols - 1] == -(s.g as int)) by (nonlinear_arith)
            requires x[cols - 1] == -(s.g as int), y[cols - 1] == 1;
    }
}

/// Appends the header of an `rn` table.
fn push_rn_header(out: &mut String, title: &str, m: usize, mu: usize, mu_class: &str, pad: &str)
    requires
        m >= 1,
    ensures
        final(out)@ == old(out)@ + rn_header(title@, m as int, mu as int, mu_class@, pad@),
{
    out.append("<th>");
    out.append(title);
    out.append("</th>");
    let ghost a0 = out@;
    let ghost rf2 = |k: int| "<th"@ + (if k + 1 == mu && mu_class@.len() > 0 { " class=\""@ + mu_class@ + "\""@ } else { ""@ })
        + ">r<sub>"@ + dec((k + 1) as nat) + "</sub></th>"@;
    let mut i: usize = 1;
    while i < m
        invariant
            m >= 1,
            1 <= i <= m,
            rf2 == (|k: int| "<th"@ + (if k + 1 == mu && mu_class@.len() > 0 { " class=\""@ + mu_class@ + "\""@ } else { ""@ })
                + ">r<sub>"@ + dec((k + 1) as nat) + "</sub></th>"@),
            out@ == a0 + concat_n((i - 1) as nat, rf2),
        decreases m - i,
    {
        let ghost before = out@;
        out.append("<th");
        if i == mu && mu_class.unicode_len() > 0 {
            out.append(" class=\"");
            out.append(mu_class);
            out.append("\"");
        } else {
            out.append("");
        }
        out.append(">r<sub>");
        push_usize(out, i);
        out.append("</sub></th>");
        proof {
            assert(out@ =~= before + rf2((i - 1) as int));
            assert(concat_n(i as nat, rf2) == concat_n((i - 1) as nat, rf2) + rf2((i - 1) as int));
        }
        i = i + 1;
    }
    let ghost a1 = out@;
    let ghost nf = |k: int| "<th>n<sub>"@ + dec((k + 1) as nat) + "</sub></th>"@;
    let mut i: usize = 1;
    while i < m
        invariant
            m >= 1,
            1 <= i <= m,
            nf == (|k: int| "<th>n<sub>"@ + dec((k + 1) as nat) + "</sub></th>"@),
            out@ == a1 + concat_n((i - 1) as nat, nf),
        decreases m - i,
    {
        out.append("<th>n<sub>");
        push_usize(out, i);
        out.append("</sub></th>");
        proof {
            assert(concat_n(i as nat, nf) == concat_n((i - 1) as nat, nf) + nf((i - 1) as int));
            assert(out@ =~= a1 + concat_n(i as nat, nf));
        }
        i = i + 1;
    }
    if pad.unicode_len() > 0 {
        out.append("<th>");
        out.append(pad);
        out.append("</th>");
    } else {
        out.append("");
    }
    proof {
        assert(final(out)@ =~= old(out)@ + rn_header(title@, m as int, mu as int, mu_class@, pad@));
    }
}

/// Appends the table of `rn`.
fn push_rn_table(h: &mut String, sg: &Semigroup, rv: &Vec<i64>, nv: &Vec<i64>)
    requires
        sg.wf(),
        diag_fits(*sg),
        rv@ == rv_spec(*sg),
        nv@ == nv_spec(*sg),
    ensures
        final(h)@ == old(h)@ + rn_table_text(*sg),
{
    let m = sg.m;
    // The table of rn.
    h.append("<div class=\"table-wrap\"><table class=\"classify-table u-matrix-table\"><thead><tr>");
    push_rn_header(h, "rn", m, sg.mu, "rn-mu", "1");
    h.append("</tr></thead><tbody><tr><th></th>");
    let ghost t0 = h@;
    let ghost cf = |k: int| "<td"@ + (if k + 1 == sg.mu { " class=\"rn-mu\""@ } else { ""@ }) + ">"@ + int_text(rv@[k] as int) + "</td>"@;
    let mut k: usize = 0;
    while k < rv.len()
        invariant
            k <= rv@.len(),
            cf == (|k: int| "<td"@ + (if k + 1 == sg.mu { " class=\"rn-mu\""@ } else { ""@ }) + ">"@ + int_text(rv@[k] as int) + "</td>"@),
            h@ == t0 + concat_n(k as nat, cf),
        decreases rv@.len() - k,
    {
        let ghost before = h@;
        h.append("<td");
        if k + 1 == sg.mu {
            h.append(" class=\"rn-mu\"");
        } else {
            h.append("");
        }
        h.append(">");
        push_int(h, rv[k]);
        h.append("</td>");
        proof {
            assert(h@ =~= before + cf(k as int));
            assert(concat_n((k + 1) as nat, cf) == concat_n(k as nat, cf) + cf(k as int));
        }
        k = k + 1;
    }
    push_tds(h, &nv);
    h.append("<td>1</td>");
    h.append("</tr></tbody></table></div>");
    proof {
        assert(h@ =~= old(h)@ + rn_table_text(*sg));
    }
}

/// Appends the table of `RSym` and returns `RSym·rn`, which vanishes.
fn push_rsym_table(h: &mut String, sg: &Semigroup, rn: &Vec<i64>, rv: &Vec<i64>, nv: &Vec<i64>) -> (prod: Vec<i64>)
    requires
        sg.wf(),
        diag_fits(*sg),
        rn@ == rn_spec(*sg),
        rv@ == rv_spec(*sg),
        nv@ == nv_spec(*sg),
        forall|i: int| 0 <= i < rv@.len() ==> 0 <= #[trigger] rv@[i] <= 2 * (sg.f + sg.m),
        forall|i: int| 0 <= i < nv@.len() ==> iabs(#[trigger] nv@[i] as int) <= 3 * (sg.f + sg.m),
    ensures
        final(h)@ == old(h)@ + rsym_table_text(*sg),
        prod@.len() == sg.m,
        forall|i: int| 0 <= i < prod@.len() ==> #[trigger] prod@[i] == 0,
{
    proof {
        lemma_diag_sizes(*sg);
    }
    let m = sg.m;
    let dim = m - 1;
    let cols = 2 * dim + 1;
    // The matrix RSym, and its product with rn.
    h.append("<div class=\"table-wrap\"><table class=\"classify-table u-matrix-table\"><thead><tr>");
    push_rn_header(h, "RSym", m, 0, "", "1");
    h.append("</tr></thead><tbody>");
    let ghost s0 = h@;
    let ghost rowf = |row: int| "<tr><th>"@ + (if row + 1 == m { ""@ } else { dec((row + 1) as nat) }) + "</th>"@
        + concat_n(cols as nat, |col: int| if row + 1 == m && col + 1 == cols {
            "<td>\u{2212}"@ + dec(sg.g as nat) + "</td>"@
        } else {
            pm_text(rsym_entry(m as int, sg.mu as int, sg.g as int, row, col))
        }) + "</tr>"@;
    let mut prod: Vec<i64> = Vec::new();
    let mut row: usize = 0;
    while row < m
        invariant
            sg.wf(),
            diag_fits(*sg),
            m == sg.m,
            dim == m - 1,
            cols == 2 * dim + 1,
            2 * (sg.f + sg.m) <= i64::MAX / 64,
            sg.g <= sg.f + 1,
            rn@ == rn_spec(*sg),
            rv@ == rv_spec(*sg),
            nv@ == nv_spec(*sg),
            forall|i: int| 0 <= i < rv@.len() ==> 0 <= #[trigger] rv@[i] <= 2 * (sg.f + sg.m),
            forall|i: int| 0 <= i < nv@.len() ==> iabs(#[trigger] nv@[i] as int) <= 3 * (sg.f + sg.m),
            row <= m,
            prod@.len() == row,
            forall|i: int| 0 <= i < row ==> #[trigger] prod@[i] == 0,
            rowf == (|row: int| "<tr><th>"@ + (if row + 1 == m { ""@ } else { dec((row + 1) as nat) }) + "</th>"@
                + concat_n(cols as nat, |col: int| if row + 1 == m && col + 1 == cols {
                    "<td>\u{2212}"@ + dec(sg.g as nat) + "</td>"@
                } else {
                    pm_text(rsym_entry(m as int, sg.mu as int, sg.g as int, row, col))
                }) + "</tr>"@),
            h@ == s0 + concat_n(row as nat, rowf),
        decreases m - row,
    {
        let r = rsym_row_exec(sg, row);
        let ghost before = h@;
        h.append("<tr><th>");
        if row + 1 == m {
            h.append("");
        } else {
            push_usize(h, row + 1);
        }
        h.append("</th>");
        let ghost c0 = h@;
        let ghost cellf = |col: int| if row + 1 == m && col + 1 == cols {
            "<td>\u{2212}"@ + dec(sg.g as nat) + "</td>"@
        } else {
            pm_text(rsym_entry(m as int, sg.mu as int, sg.g as int, row as int, col))
        };
        let mut col: usize = 0;
        while col < cols
            invariant
                sg.wf(),
                diag_fits(*sg),
                m == sg.m,
                cols == 2 * m - 1,
                row < m,
                sg.g <= sg.f + 1,
                2 * (sg.f + sg.m) <= i64::MAX / 64,
                r@ == rsym_row(*sg, row as int),
                col <= cols,
                cellf == (|col: int| if row + 1 == m && col + 1 == cols {
                    "<td>\u{2212}"@ + dec(sg.g as nat) + "</td>"@
                } else {
                    pm_text(rsym_entry(m as int, sg.mu as int, sg.g as int, row as int, col))
                }),
                h@ == c0 + concat_n(col as nat, cellf),
            decreases cols - col,
        {
            let ghost cb = h@;
            if row + 1 == m && col + 1 == cols {
                h.append("<td>\u{2212}");
                push_usize(h, sg.g);
                h.append("</td>");
            } else {
                push_cell(h, CellKind::Pm, sg, col, r[col]);
                proof {
                    assert(r@[col as int] as int == rsym_entry(m as int, sg.mu as int, sg.g as int, row as int, col as int));
                }
            }
            proof {
                assert(h@ =~= cb + cellf(col as int));
                assert(concat_n((col + 1) as nat, cellf) == concat_n(col as nat, cellf) + cellf(col as int));
            }
            col = col + 1;
        }
        h.append("</tr>");
        proof {
            assert(h@ =~= before + rowf(row as int));
            assert(concat_n((row + 1) as nat, rowf) == concat_n(row as nat, rowf) + rowf(row as int));
        }
        proof {
            assert forall|i: int| 0 <= i < r@.len() implies iabs(#[trigger] r@[i] as int) <= sg.f + sg.m + 1 by {}
            assert forall|i: int| 0 <= i < rn@.len() implies iabs(#[trigger] rn@[i] as int) <= 3 * (sg.f + sg.m) by {
                if i < dim {
                    assert(rn@[i] == rv@[i]);
                } else if i < 2 * dim {
                    assert(rn@[i] == nv@[i - dim]);
                }
            }
            let b1 = sg.f + sg.m + 1;
            let b2 = 3 * (sg.f + sg.m);
            assert(r@.len() * (b1 * b2) <= i64::MAX) by (nonlinear_arith)
                requires r@.len() == 2 * sg.m - 1, b1 == sg.f + sg.m + 1, b2 == 3 * (sg.f + sg.m),
                    64 * (sg.m * ((sg.f + sg.m + 1) * (sg.f + sg.m + 1))) <= i64::MAX, sg.m >= 2, sg.f >= 0;
            lemma_rsym_rn(*sg, row as int);
        }
        let v = dot(&r, &rn, Ghost((sg.f + sg.m + 1) as int), Ghost((3 * (sg.f + sg.m)) as int));
        prod.push(v);
        row = row + 1;
    }
    h.append("</tbody></table></div>");
    proof {
        assert(h@ =~= old(h)@ + rsym_table_text(*sg));
    }
    prod
}

/// Appends the table of `RSym·rn`.
fn push_rsym_prod(h: &mut String, sg: &Semigroup, prod: &Vec<i64>)
    requires
        sg.wf(),
        sg.m >= 2,
        prod@.len() == sg.m,
        forall|i: int| 0 <= i < prod@.len() ==> #[trigger] prod@[i] == 0,
    ensures
        final(h)@ == old(h)@ + rsym_prod_text(*sg),
{
    let m = sg.m;
    let dim = m - 1;
    // The product.
    h.append("<div class=\"table-wrap\"><table class=\"classify-table u-matrix-table\"><thead><tr><th>RSym\u{b7}rn</th>");
    push_one_based_header(h, dim);
    h.append("<th>\u{03a3}</th>");
    h.append("<th>= 0?</th></tr></thead><tbody><tr><th></th>");
    push_tds(h, &prod);
    let mut all_zero = true;
    let mut i: usize = 0;
    while i < prod.len()
        invariant
            i <= prod@.len(),
            forall|j: int| 0 <= j < prod@.len() ==> #[trigger] prod@[j] == 0,
            all_zero,
        decreases prod@.len() - i,
    {
        if prod[i] != 0 {
            all_zero = false;
        }
        i = i + 1;
    }
    h.append("<td>");
    h.append(check_glyph(all_zero));
    h.append("</td></tr></tbody></table></div>");
    proof {
        assert(tds(prod@) =~= concat_n(m as nat, |k: int| td_int(0))) by {
            lemma_tds_zero(prod@, m as nat);
        }
        assert(h@ =~= old(h)@ + rsym_prod_text(*sg));
    }
}

/// The `rn` block of `sg`: the table of `rn = (r_1, …, r_{m−1}, n_1, …,
/// n_{m−1}, 1)`, the matrix `RSym`, and `RSym·rn`, which is 0 in every row
/// and is marked with a check mark (see
/// [`crate::identities::lemma_r_i_symmetric`] and
/// [`crate::identities::lemma_genus_class_sum`]); empty for `m < 2`.
pub fn render_rn_block(sg: &Semigroup) -> (html: String)
    requires
        sg.wf(),
        sg.m >= 2 ==> diag_fits(*sg),
    ensures
        html@ == if sg.m < 2 { Seq::<char>::empty() } else { rn_block_text(*sg) },
{
    let mut h = String::new();
    if sg.m < 2 {
        return h;
    }
    let (rv, nv) = rn_vectors(sg);
    let mut rn: Vec<i64> = Vec::new();
    extend_i64(&mut rn, &rv);
    extend_i64(&mut rn, &nv);
    rn.push(1);
    proof {
        assert(rn@ =~= rn_spec(*sg));
    }
    push_rn_table(&mut h, sg, &rv, &nv);
    let prod = push_rsym_table(&mut h, sg, &rn, &rv, &nv);
    push_rsym_prod(&mut h, sg, &prod);
    proof {
        assert(h@ =~= rn_block_text(*sg));
    }
    h
}

/// The check mark when the product vanishes, a cross otherwise.
fn check_glyph(ok: bool) -> (g: &'static str)
    ensures
        ok ==> g@ == "\u{2713}"@,
        !ok ==> g@ == "\u{2717}"@,
{
    if ok {
        "\u{2713}"
    } else {
        "\u{2717}"
    }
}

/// A row of zeros.
proof fn lemma_tds_zero(v: Seq<i64>, k: nat)
    requires
        v.len() == k,
        forall|j: int| 0 <= j < v.len() ==> #[trigger] v[j] == 0,
    ensures
        tds(v) == concat_n(k, |i: int| td_int(0)),
    decreases k,
{
    lemma_concat_ext(k, |i: int| td_int(v[i] as int), |i: int| td_int(0));
}

/// `concat_n` of pointwise equal pieces.
proof fn lemma_concat_ext(k: nat, f: spec_fn(int) -> Seq<char>, g: spec_fn(int) -> Seq<char>)
    requires
        forall|i: int| 0 <= i < k ==> #[trigger] f(i) == g(i),
    ensures
        concat_n(k, f) == concat_n(k, g),
    decreases k,
{
    if k > 0 {
        lemma_concat_ext((k - 1) as nat, f, g);
        assert(f(k - 1) == g(k - 1));
    }
}

/// Appends the entries of `src`.
fn extend_i64(dst: &mut Vec<i64>, src: &Vec<i64>)
    ensures
        final(dst)@ == old(dst)@ + src@,
{
    let ghost start = dst@;
    let mut k: usize = 0;
    while k < src.len()
        invariant
            k <= src@.len(),
            dst@ == start + src@.subrange(0, k as int),
        decreases src@.len() - k,
    {
        dst.push(src[k]);
        proof {
            assert(dst@ =~= start + src@.subrange(0, k + 1));
        }
        k = k + 1;
    }
    proof {
        assert(src@.subrange(0, src@.len() as int) =~= src@);
    }
}

/// The labels and entries that make up the diagonals view.
pub open spec fn vu_entry(m: int) -> spec_fn(int, int) -> int {
    |a: int, b: int| if a == b { m } else { 0 }
}

/// The diagonals view of `sg`: the `rn` block; `U(m)` with
/// `det U(m) = m^{m−2}`; `V(m)` and `V(m)·U(m) = m·I_{m−1}`; the table of
/// `1ᵀU(m)`, `c₁`, their product and `mg + (m − 1)m/2`; `U(m)·C_red` with
/// its first column drawn as numbers of the semigroup; the pair relations;
/// `D(m)`; and the table of `zd(m)`, `D(m)·c₁`, `zd(m)·c₁`, `f + m + r` and
/// `2g + m − 1`.
pub open spec fn diagonals_text(s: Semigroup) -> Seq<char> {
    "<div class=\"diagonals-pane\">"@ + rn_block_text(s) + "<hr class=\"diagonals-sep\">"@
        + diag_part1(s) + diag_part2(s) + diag_part3(s) + "</div>"@
}

/// `U(m)`, its determinant, `V(m)` and `V(m)·U(m)`.
pub open spec fn diag_part1(s: Semigroup) -> Seq<char> {
    let m = s.m as int;
    let n = (m - 1) as nat;
    let labels = one_based_labels(n);
    wrap(mat_table("U(m)"@, n, labels, square_rows(n, |a: int, b: int| u_entry(m, a, b)), CellKind::Plain, s))
        + det_note(m as nat)
        + wrap(mat_table("V(m)"@, n, labels, square_rows(n, |a: int, b: int| v_entry(m, a, b)), CellKind::Plain, s))
        + wrap(mat_table("V(m)\u{b7}U(m)"@, n, labels, square_rows(n, vu_entry(m)), CellKind::Plain, s))
        + vu_note(m as nat)
}

/// The vectors `1ᵀU(m)` and `c₁`, `U(m)·C_red` and the pair relations.
pub open spec fn diag_part2(s: Semigroup) -> Seq<char> {
    let m = s.m as int;
    let n = (m - 1) as nat;
    wrap(one_vec_text(one_u_spec(m), c1_spec(s), m * s.g + m * (m - 1) / 2))
        + wrap(mat_table("U(m)\u{b7}C_red"@, n, one_based_labels(n), uc_rows(s), CellKind::Classified, s))
        + wrap(mat_table("(U_i+U_j\u{2212}U_{i+j})/m"@, n, pair_labels_upto(m, m - 1), pair_rows_upto(m, m - 1), CellKind::Pm, s))
}

/// `D(m)` and the table of `zd(m)` and `D(m)·c₁`.
pub open spec fn diag_part3(s: Semigroup) -> Seq<char> {
    let m = s.m as int;
    let n = (m - 1) as nat;
    wrap(mat_table("D(m)"@, n, one_based_labels(n), square_rows(n, |a: int, b: int| d_entry(m, a, b)), CellKind::Plain, s))
        + wrap(d_prod_text(zd_spec(m), d_prod_spec(s), c1_spec(s), s.f + s.m + s.r, 2 * s.g + m - 1))
}

/// Appends `U(m)`, `V(m)` and `V(m)·U(m)`.
fn push_diag_part1(out: &mut String, sg: &Semigroup)
    requires
        sg.wf(),
        diag_fits(*sg),
    ensures
        final(out)@ == old(out)@ + diag_part1(*sg),
{
    proof {
        lemma_diag_sizes(*sg);
        let m = sg.m as int;
        assert((m - 1) * m / 2 * (m - 1) <= usize::MAX) by (nonlinear_arith)
            requires 64 * (m * m * m * (sg.f + m + 1)) <= usize::MAX, m >= 2, sg.f >= 0;
    }
    let m = sg.m;
    let n = m - 1;
    let labels = one_based(n);
    let u = u_matrix(m);
    let u_rows = square_table_rows(m, &u, Ghost(|a: int, b: int| u_entry(m as int, a, b)));
    push_wrapped_table(out, "U(m)", n, &labels, &u_rows, CellKind::Plain, sg);
    push_det_note(out, m);
    let v = v_matrix(m);
    let v_rows = square_table_rows(m, &v, Ghost(|a: int, b: int| v_entry(m as int, a, b)));
    push_wrapped_table(out, "V(m)", n, &labels, &v_rows, CellKind::Plain, sg);
    let vu = vu_rows(m);
    push_wrapped_table(out, "V(m)\u{b7}U(m)", n, &labels, &vu, CellKind::Plain, sg);
    push_vu_note(out, m);
    proof {
        assert(final(out)@ =~= old(out)@ + diag_part1(*sg));
    }
}

/// Appends the vectors, `U(m)·C_red` and the pair relations.
fn push_diag_part2(out: &mut String, sg: &Semigroup)
    requires
        sg.wf(),
        diag_fits(*sg),
    ensures
        final(out)@ == old(out)@ + diag_part2(*sg),
{
    proof {
        lemma_diag_sizes(*sg);
        let m = sg.m as int;
        assert((m - 1) * m / 2 * (m - 1) <= usize::MAX) by (nonlinear_arith)
            requires 64 * (m * m * m * (sg.f + m + 1)) <= usize::MAX, m >= 2, sg.f >= 0;
    }
    let m = sg.m;
    let n = m - 1;
    let labels = one_based(n);
    let u = u_matrix(m);
    let one_u = one_u_vec(m, &u);
    let cr = c_red(sg);
    let c1 = c1_vec(sg, &cr);
    proof {
        assert forall|i: int| 0 <= i < c1@.len() implies iabs(#[trigger] c1@[i] as int) <= 2 * (sg.f + sg.m) by {}
        assert(one_u@.len() * ((m * m) * (2 * (sg.f + sg.m))) <= i64::MAX);
    }
    let scalar = dot(&one_u, &c1, Ghost((m * m) as int), Ghost(2 * (sg.f + sg.m) as int));
    proof {
        assert(sg.g <= sg.f + 1);
        assert(m * sg.g + m * (m - 1) / 2 <= i64::MAX) by (nonlinear_arith)
            requires sg.g <= sg.f + 1, m * (m * (2 * (sg.f + sg.m))) <= i64::MAX, m == sg.m, m >= 2, sg.f >= 0;
    }
    let apery_sum = (m * sg.g + m * (m - 1) / 2) as i64;
    out.append("<div class=\"table-wrap\">");
    push_one_vec(out, &one_u, &c1, scalar, apery_sum);
    out.append("</div>");
    let uc = uc_table_rows(sg, &cr);
    proof {
        assert(rows_of_vecs(uc@).len() == uc@.len());
    }
    push_wrapped_table(out, "U(m)\u{b7}C_red", n, &labels, &uc, CellKind::Classified, sg);
    let pair = u_pair_relations(m);
    let (pair_rows, pair_labels) = pair_table_rows(m, &pair);
    proof {
        assert(rows_of_vecs(pair_rows@).len() == pair_rows@.len());
        assert(strings_view(pair_labels@).len() == pair_labels@.len());
        lemma_pair_rows_len(m as int, m - 1);
    }
    push_wrapped_table(out, "(U_i+U_j\u{2212}U_{i+j})/m", n, &pair_labels, &pair_rows, CellKind::Pm, sg);
    proof {
        assert(final(out)@ =~= old(out)@ + diag_part2(*sg));
    }
}

/// Appends `D(m)` and the table of `D(m)·c₁`.
fn push_diag_part3(out: &mut String, sg: &Semigroup)
    requires
        sg.wf(),
        diag_fits(*sg),
    ensures
        final(out)@ == old(out)@ + diag_part3(*sg),
{
    proof {
        lemma_diag_sizes(*sg);
        let m = sg.m as int;
        assert((m - 1) * m / 2 * (m - 1) <= usize::MAX) by (nonlinear_arith)
            requires 64 * (m * m * m * (sg.f + m + 1)) <= usize::MAX, m >= 2, sg.f >= 0;
    }
    let m = sg.m;
    let n = m - 1;
    let labels = one_based(n);
    let cr = c_red(sg);
    let c1 = c1_vec(sg, &cr);
    let d = d_matrix(m);
    let d_rows = square_table_rows(m, &d, Ghost(|a: int, b: int| d_entry(m as int, a, b)));
    push_wrapped_table(out, "D(m)", n, &labels, &d_rows, CellKind::Plain, sg);
    let zdm = zd_vector(m);
    let zd = first_row(&zdm, n);
    proof {
        assert forall|b: int| 0 <= b < n implies #[trigger] zd@[b] == zd_spec(m as int)[b] by {
            assert(zdm.at(0, b) as int == zd_entry(m as int, b));
        }
        assert(zd@ =~= zd_spec(m as int));
        assert forall|i: int| 0 <= i < zd@.len() implies iabs(#[trigger] zd@[i] as int) <= 3 * sg.m by {
            assert(zdm.at(0, i) as int == zd_entry(m as int, i));
        }
    }
    let d_prod = d_prod_vec(sg, &d, &c1);
    let zd_dot = dot(&zd, &c1, Ghost(3 * sg.m as int), Ghost(2 * (sg.f + sg.m) as int));
    proof {
        assert(sg.r <= sg.f) by {
            crate::generated::lemma_count_le(crate::semigroup::reflected_pred(sg.gen_set@, sg.f as int), sg.f as int);
        }
    }
    let fmr = (sg.f + m + sg.r) as i64;
    let two_g = (2 * sg.g + m - 1) as i64;
    out.append("<div class=\"table-wrap\">");
    push_d_prod(out, &zd, &d_prod, &c1, zd_dot, fmr, two_g);
    out.append("</div>");
    proof {
        assert(final(out)@ =~= old(out)@ + diag_part3(*sg));
    }
}

/// The diagonals view of `sg`.
pub fn diagonals_table(sg: &Semigroup) -> (html: String)
    requires
        sg.wf(),
        diag_fits(*sg),
    ensures
        html@ == diagonals_text(*sg),
{
    let mut out = String::new();
    out.append("<div class=\"diagonals-pane\">");
    let rn = render_rn_block(sg);
    out.append(rn.as_str());
    out.append("<hr class=\"diagonals-sep\">");
    push_diag_part1(&mut out, sg);
    push_diag_part2(&mut out, sg);
    push_diag_part3(&mut out, sg);
    out.append("</div>");
    proof {
        assert(out@ =~= diagonals_text(*sg));
    }
    out
}

/// The number of pair rows.
proof fn lemma_pair_rows_len(m: int, k: int)
    requires
        0 <= k <= m - 1,
    ensures
        pair_rows_upto(m, k).len() == pair_labels_upto(m, k).len(),
    decreases k,
{
    if k > 0 {
        lemma_pair_rows_len(m, k - 1);
    }
}

/// `<div class="table-wrap">…</div>`.
pub open spec fn wrap(x: Seq<char>) -> Seq<char> {
    "<div class=\"table-wrap\">"@ + x + "</div>"@
}

/// Appends a matrix table inside a `table-wrap` division.
fn push_wrapped_table(out: &mut String, caption: &str, ncols: usize, labels: &Vec<String>, rows: &Vec<Vec<i64>>, kind: CellKind, sg: &Semigroup)
    requires
        sg.wf(),
        labels@.len() == rows@.len(),
        (kind == CellKind::Classified || kind == CellKind::Graded) ==> forall|a: int| 0 <= a < rows@.len() && rows@[a]@.len() > 0 ==> #[trigger] rows@[a]@[0] <= usize::MAX,
    ensures
        final(out)@ == old(out)@ + wrap(mat_table(caption@, ncols as nat, strings_view(labels@), rows_of_vecs(rows@), kind, *sg)),
{
    out.append("<div class=\"table-wrap\">");
    push_mat_table(out, caption, ncols, labels, rows, kind, sg);
    out.append("</div>");
    proof {
        assert(final(out)@ =~= old(out)@ + wrap(mat_table(caption@, ncols as nat, strings_view(labels@), rows_of_vecs(rows@), kind, *sg)));
    }
}

/// The note on `det U(m)`.
pub open spec fn det_note(m: nat) -> Seq<char> {
    "<p class=\"det-note\">det(U(m)) = m<sup>m\u{2212}2</sup> = "@ + dec(m) + "<sup>"@ + dec((m - 2) as nat) + "</sup></p>"@
}

/// The note on `V(m)·U(m)`.
pub open spec fn vu_note(m: nat) -> Seq<char> {
    "<p class=\"det-note\">V(m)\u{b7}U(m) = m\u{b7}I<sub>m\u{2212}1</sub> = "@ + dec(m) + "\u{b7}I<sub>"@ + dec((m - 1) as nat) + "</sub></p>"@
}

/// Appends the note on `det U(m)`.
fn push_det_note(out: &mut String, m: usize)
    requires
        m >= 2,
    ensures
        final(out)@ == old(out)@ + det_note(m as nat),
{
    out.append("<p class=\"det-note\">det(U(m)) = m<sup>m\u{2212}2</sup> = ");
    push_usize(out, m);
    out.append("<sup>");
    push_usize(out, m - 2);
    out.append("</sup></p>");
    proof {
        assert(final(out)@ =~= old(out)@ + det_note(m as nat));
    }
}

/// Appends the note on `V(m)·U(m)`.
fn push_vu_note(out: &mut String, m: usize)
    requires
        m >= 2,
    ensures
        final(out)@ == old(out)@ + vu_note(m as nat),
{
    out.append("<p class=\"det-note\">V(m)\u{b7}U(m) = m\u{b7}I<sub>m\u{2212}1</sub> = ");
    push_usize(out, m);
    out.append("\u{b7}I<sub>");
    push_usize(out, m - 1);
    out.append("</sub></p>");
    proof {
        assert(final(out)@ =~= old(out)@ + vu_note(m as nat));
    }
}

/// The rows of a square matrix given by a formula, read from the matrix.
fn square_table_rows(m: usize, p: &DenseMatrix<i64>, Ghost(f): Ghost<spec_fn(int, int) -> int>) -> (rows: Vec<Vec<i64>>)
    requires
        is_square_of(*p, m as int, f),
    ensures
        rows_of_vecs(rows@) == square_rows((m - 1) as nat, f),
        rows@.len() == m - 1,
{
    let rows = rows_from_matrix(p);
    proof {
        lemma_square_rows(*p, m as int, f);
        assert(rows_of_vecs(rows@).len() == rows@.len());
    }
    rows
}

/// `m·I` as rows: `V(m)·U(m)` (see [`crate::kunz_matrices::lemma_v_times_u`]).
fn vu_rows(m: usize) -> (rows: Vec<Vec<i64>>)
    requires
        2 <= m <= i64::MAX,
    ensures
        rows_of_vecs(rows@) == square_rows((m - 1) as nat, vu_entry(m as int)),
        rows@.len() == m - 1,
{
    let n = m - 1;
    let mut rows: Vec<Vec<i64>> = Vec::new();
    let mut a: usize = 0;
    while a < n
        invariant
            2 <= m <= i64::MAX,
            n == m - 1,
            a <= n,
            rows@.len() == a,
            forall|i: int| 0 <= i < a ==> #[trigger] rows@[i]@ == square_rows((m - 1) as nat, vu_entry(m as int))[i],
        decreases n - a,
    {
        let mut row: Vec<i64> = Vec::new();
        let mut b: usize = 0;
        while b < n
            invariant
                2 <= m <= i64::MAX,
                n == m - 1,
                a < n,
                b <= n,
                row@.len() == b,
                forall|j: int| 0 <= j < b ==> #[trigger] row@[j] == (vu_entry(m as int)(a as int, j)) as i64,
            decreases n - b,
        {
            if a == b {
                row.push(m as i64);
            } else {
                row.push(0);
            }
            b = b + 1;
        }
        proof {
            assert(row@ =~= square_rows((m - 1) as nat, vu_entry(m as int))[a as int]);
        }
        rows.push(row);
        a = a + 1;
    }
    proof {
        assert(rows_of_vecs(rows@) =~= square_rows((m - 1) as nat, vu_entry(m as int)));
    }
    rows
}

/// The earlier diagonals view of `sg`: `U(m)` with `det U(m) = m^{m−2}`,
/// the table of `1ᵀU(m)`, `c₁`, their product and `mg + (m − 1)m/2`,
/// `U(m)·C_red` with its first column drawn as numbers of the semigroup
/// (classes of [`get_cls`]), and the pair relations.
pub open spec fn js_diagonals_text(s: Semigroup) -> Seq<char> {
    let m = s.m as int;
    let n = (m - 1) as nat;
    let labels = one_based_labels(n);
    "<div class=\"diagonals-pane\">"@ + wrap(
        mat_table("U(m)"@, n, labels, square_rows(n, |a: int, b: int| u_entry(m, a, b)), CellKind::Plain, s),
    ) + det_note(m as nat) + wrap(one_vec_text(one_u_spec(m), c1_spec(s), m * s.g + m * (m - 1) / 2)) + wrap(
        mat_table("U(m)\u{b7}C_red"@, n, labels, uc_rows(s), CellKind::Graded, s),
    ) + wrap(
        mat_table(
            "(U_i+U_j\u{2212}U_{i+j})/m"@,
            n,
            pair_labels_upto(m, m - 1),
            pair_rows_upto(m, m - 1),
            CellKind::Pm,
            s,
        ),
    ) + "</div>"@
}

/// The earlier diagonals view of `sg` (see [`js_diagonals_text`]).
pub fn js_diagonals_table(sg: &Semigroup) -> (html: String)
    requires
        sg.wf(),
        diag_fits(*sg),
    ensures
        html@ == js_diagonals_text(*sg),
{
    proof {
        lemma_diag_sizes(*sg);
        let m = sg.m as int;
        assert((m - 1) * m / 2 * (m - 1) <= usize::MAX) by (nonlinear_arith)
            requires 64 * (m * m * m * (sg.f + m + 1)) <= usize::MAX, m >= 2, sg.f >= 0;
    }
    let m = sg.m;
    let n = m - 1;
    let labels = one_based(n);
    let mut out = String::new();
    out.append("<div class=\"diagonals-pane\">");
    let u = u_matrix(m);
    let u_rows = square_table_rows(m, &u, Ghost(|a: int, b: int| u_entry(m as int, a, b)));
    push_wrapped_table(&mut out, "U(m)", n, &labels, &u_rows, CellKind::Plain, sg);
    push_det_note(&mut out, m);
    let one_u = one_u_vec(m, &u);
    let cr = c_red(sg);
    let c1 = c1_vec(sg, &cr);
    proof {
        assert forall|i: int| 0 <= i < c1@.len() implies iabs(#[trigger] c1@[i] as int) <= 2 * (sg.f + sg.m) by {}
        assert(one_u@.len() * ((m * m) * (2 * (sg.f + sg.m))) <= i64::MAX);
    }
    let scalar = dot(&one_u, &c1, Ghost((m * m) as int), Ghost(2 * (sg.f + sg.m) as int));
    proof {
        assert(sg.g <= sg.f + 1);
        assert(m * sg.g + m * (m - 1) / 2 <= i64::MAX) by (nonlinear_arith)
            requires sg.g <= sg.f + 1, m * (m * (2 * (sg.f + sg.m))) <= i64::MAX, m == sg.m, m >= 2, sg.f >= 0;
    }
    let apery_sum = (m * sg.g + m * (m - 1) / 2) as i64;
    out.append("<div class=\"table-wrap\">");
    push_one_vec(&mut out, &one_u, &c1, scalar, apery_sum);
    out.append("</div>");
    let uc = uc_table_rows(sg, &cr);
    proof {
        assert(rows_of_vecs(uc@).len() == uc@.len());
    }
    push_wrapped_table(&mut out, "U(m)\u{b7}C_red", n, &labels, &uc, CellKind::Graded, sg);
    let pair = u_pair_relations(m);
    let (pair_rows, pair_labels) = pair_table_rows(m, &pair);
    proof {
        assert(rows_of_vecs(pair_rows@).len() == pair_rows@.len());
        assert(strings_view(pair_labels@).len() == pair_labels@.len());
        lemma_pair_rows_len(m as int, m - 1);
    }
    push_wrapped_table(&mut out, "(U_i+U_j\u{2212}U_{i+j})/m", n, &pair_labels, &pair_rows, CellKind::Pm, sg);
    out.append("</div>");
    proof {
        assert(out@ =~= js_diagonals_text(*sg));
    }
    out
}

} // verus!
