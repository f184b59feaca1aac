//! The Kunz table and the structure grid of the first calculator view.
use vstd::prelude::*;
use vstd::string::StringExecFns;
use crate::generated::seq_has;
use crate::grid::{build_combined, combined_text, concat_n, grid_fits};
use crate::identities::{kunz_row_sum, lemma_kunz_row_sum};
use crate::generated::filter_upto;
use crate::inspect::{kunz_spec, lemma_kunz_bound, pf_blob_pred, vec_contains};
use crate::semigroup::{reflected_pred, Semigroup};
use crate::strata::dec;
use crate::text::push_usize;

verus! {

/// A cell of the Kunz table: zeros off the first row and column are marked.
pub open spec fn kunz_cell(i: int, j: int, v: int) -> Seq<char> {
    "<td"@ + (if i > 0 && j > 0 && v == 0 { " class=\"kunz-zero\""@ } else { Seq::empty() }) + ">"@ + dec(v as nat)
        + "</td>"@
}

/// Row `i` of the Kunz table: the row sum `w_i` (marked as a generator when
/// it is one, else as an Apéry element), then `c(i, 0), …, c(i, m − 1)`.
pub open spec fn kunz_row(s: Semigroup, i: int) -> Seq<char> {
    let m = s.m as int;
    let w = s.apery_set@[i] as int;
    "<tr><td class=\""@ + (if seq_has(s.gen_set@, w) { "sg-gen"@ } else { "sg-apery"@ }) + "\">"@ + dec(w as nat)
        + "</td>"@ + concat_n(m as nat, |j: int| kunz_cell(i, j, kunz_spec(s.apery_set@, m, i, j))) + "</tr>"@
}

/// The Kunz table: a header `Σ, 0, …, m − 1` and one row per class.
pub open spec fn kunz_table_text(s: Semigroup) -> Seq<char> {
    let m = s.m as nat;
    "<table class=\"kunz-table\"><thead><tr><th>&#x3A3;</th>"@ + concat_n(m, |j: int| "<th>"@ + dec(j as nat) + "</th>"@)
        + "</tr></thead><tbody>"@ + concat_n(m, |i: int| kunz_row(s, i)) + "</tbody></table>"@
}

/// Appends row `i` of the Kunz table.
fn push_kunz_row(out: &mut String, sg: &Semigroup, i: usize)
    requires
        sg.wf(),
        i < sg.m,
    ensures
        final(out)@ == old(out)@ + kunz_row(*sg, i as int),
{
    let m = sg.m;
    let ghost mm = m as int;
    let mut row_sum: usize = 0;
    let mut j: usize = 0;
    while j < m
        invariant
            sg.wf(),
            m == sg.m,
            mm == m,
            i < m,
            j <= m,
            row_sum == kunz_row_sum(*sg, i as int, j as int),
            row_sum <= j * (2 * (sg.f + sg.m)),
        decreases m - j,
    {
        proof {
            lemma_kunz_bound(sg.apery_set@, mm, sg.f as int, i as int, j as int);
            assert(j * (2 * (sg.f + sg.m)) + 2 * (sg.f + sg.m) == (j + 1) * (2 * (sg.f + sg.m))) by (nonlinear_arith);
            assert((j + 1) * (2 * (sg.f + sg.m)) <= m * (2 * (sg.f + sg.m))) by (nonlinear_arith) requires j + 1 <= m;
            assert(m * (2 * (sg.f + sg.m)) <= usize::MAX) by (nonlinear_arith)
                requires 4 * (sg.m * (sg.f + sg.m)) <= usize::MAX, m == sg.m;
        }
        row_sum = row_sum + sg.kunz(i, j);
        j = j + 1;
    }
    proof {
        lemma_kunz_row_sum(*sg, i as int);
    }
    let w = sg.apery_set[i];
    out.append("<tr><td class=\"");
    if vec_contains(&sg.gen_set, w) {
        out.append("sg-gen");
    } else {
        out.append("sg-apery");
    }
    out.append("\">");
    push_usize(out, row_sum);
    out.append("</td>");
    let ghost mid = out@;
    let ghost f = |j: int| kunz_cell(i as int, j, kunz_spec(sg.apery_set@, mm, i as int, j));
    let mut j: usize = 0;
    while j < m
        invariant
            sg.wf(),
            m == sg.m,
            mm == m,
            i < m,
            j <= m,
            f == (|j: int| kunz_cell(i as int, j, kunz_spec(sg.apery_set@, mm, i as int, j))),
            out@ == mid + concat_n(j as nat, f),
        decreases m - j,
    {
        let v = sg.kunz(i, j);
        out.append("<td");
        if i > 0 && j > 0 && v == 0 {
            out.append(" class=\"kunz-zero\"");
        }
        out.append(">");
        push_usize(out, v);
        out.append("</td>");
        proof {
            assert(concat_n((j + 1) as nat, f) == concat_n(j as nat, f) + f(j as int));
            assert(out@ =~= mid + concat_n((j + 1) as nat, f));
        }
        j = j + 1;
    }
    out.append("</tr>");
    proof {
        assert(final(out)@ =~= old(out)@ + kunz_row(*sg, i as int));
    }
}

/// The Kunz table of `sg`: a header `Σ, 0, …, m − 1` and, for each class
/// `i`, the row sum of the Kunz matrix (which is `w_i`) followed by the
/// coefficients `c(i, j)`, the zeros off the first row and column marked.
pub fn kunz_table(sg: &Semigroup) -> (html: String)
    requires
        sg.wf(),
    ensures
        html@ == kunz_table_text(*sg),
{
    let m = sg.m;
    let mut out = String::new();
    out.append("<table class=\"kunz-table\"><thead><tr><th>&#x3A3;</th>");
    let ghost h0 = out@;
    let ghost hf = |j: int| "<th>"@ + dec(j as nat) + "</th>"@;
    let mut j: usize = 0;
    while j < m
        invariant
            j <= m,
            hf == (|j: int| "<th>"@ + dec(j as nat) + "</th>"@),
            out@ == h0 + concat_n(j as nat, hf),
        decreases m - j,
    {
        out.append("<th>");
        push_usize(&mut out, j);
        out.append("</th>");
        proof {
            assert(concat_n((j + 1) as nat, hf) == concat_n(j as nat, hf) + hf(j as int));
            assert(out@ =~= h0 + concat_n((j + 1) as nat, hf));
        }
        j = j + 1;
    }
    out.append("</tr></thead><tbody>");
    let ghost b0 = out@;
    let ghost rf = |i: int| kunz_row(*sg, i);
    let mut i: usize = 0;
    while i < m
        invariant
            sg.wf(),
            m == sg.m,
            i <= m,
            rf == (|i: int| kunz_row(*sg, i)),
            out@ == b0 + concat_n(i as nat, rf),
        decreases m - i,
    {
        push_kunz_row(&mut out, sg, i);
        proof {
            assert(concat_n((i + 1) as nat, rf) == concat_n(i as nat, rf) + rf(i as int));
        }
        i = i + 1;
    }
    out.append("</tbody></table>");
    proof {
        assert(out@ =~= kunz_table_text(*sg));
    }
    out
}

/// The pseudo-Frobenius list of the structure grid: the reflected gaps `x`
/// with `x + a ∈ S` for every minimal generator `a`, then `f`.
pub open spec fn structure_pf(s: Semigroup) -> Seq<usize> {
    filter_upto(pf_blob_pred(s), s.f as int).push(s.f)
}

/// The reflected gaps of `s` (gaps `x < f` with `f − x` a gap), increasing.
pub open spec fn structure_blobs(s: Semigroup) -> Seq<usize> {
    filter_upto(reflected_pred(s.gen_set@, s.f as int), s.f as int)
}

/// The class of the number `n ≥ 0` in the structure grid: large beyond
/// `f + m`, then Frobenius, generator, Apéry element, element,
/// pseudo-Frobenius, reflected gap, other gap, the first that applies.
pub open spec fn structure_class(s: Semigroup, n: int) -> Seq<char> {
    let w = s.apery_set@[n % (s.m as int)] as int;
    if n > s.f + s.m {
        "sg-large"@
    } else if n == s.f {
        "sg-frob"@
    } else if seq_has(s.gen_set@, n) {
        "sg-gen"@
    } else if n == w {
        "sg-apery"@
    } else if s.contains(n) {
        "sg-in"@
    } else if seq_has(structure_pf(s), n) {
        "sg-pf"@
    } else if seq_has(structure_blobs(s), n) {
        "sg-blob"@
    } else {
        "sg-out"@
    }
}

/// The cell of the number `n`: empty below 0, else `n` with its class.
pub open spec fn structure_cell(s: Semigroup, n: int) -> Seq<char> {
    if n < 0 {
        "<td class=\"sg-empty\"></td>"@
    } else {
        "<td class=\""@ + structure_class(s, n) + "\">"@ + dec(n as nat) + "</td>"@
    }
}

/// Row `row` of the structure grid: the numbers `row·width + offset + col`
/// for `col` in `0..width`.
pub open spec fn structure_row(s: Semigroup, offset: int, width: int, row: int) -> Seq<char> {
    "<tr>"@ + concat_n(width as nat, |col: int| structure_cell(s, row * width + offset + col)) + "</tr>"@
}

/// The rows `hi − 1` down to `lo`.
pub open spec fn structure_rows(s: Semigroup, offset: int, width: int, hi: int, lo: int) -> Seq<char>
    decreases hi - lo,
{
    if hi <= lo {
        Seq::empty()
    } else {
        structure_row(s, offset, width, hi - 1) + structure_rows(s, offset, width, hi - 1, lo)
    }
}

/// The structure grid: a header of the residues `(offset + col) mod width`,
/// then the rows from `⌊f/width⌋ + 2` down to 0, or down to −1 when
/// `offset > 0`, so that values grow left to right and bottom to top.
pub open spec fn structure_text(s: Semigroup, offset: int, width: int) -> Seq<char> {
    let start_row = if offset == 0 { 0int } else { -1int };
    let end_row = (s.f as int) / width + 3;
    "<table class=\"sg-grid\"><thead><tr>"@ + concat_n(width as nat, |col: int| "<th>"@ + dec(((offset + col) % width) as nat) + "</th>"@)
        + "</tr></thead><tbody>"@ + structure_rows(s, offset, width, end_row, start_row) + "</tbody></table>"@
}

/// The sizes for which every number of the structure grid fits in an `isize`.
pub open spec fn structure_fits(s: Semigroup, offset: int, width: int) -> bool {
    &&& width >= 1
    &&& 4 * (offset + s.f + 4 * width) <= isize::MAX
}

/// The class of `n` in the structure grid, given the pseudo-Frobenius list
/// and the reflected gaps.
fn structure_cls(sg: &Semigroup, pf: &Vec<usize>, blobs: &Vec<usize>, n: usize) -> (c: &'static str)
    requires
        sg.wf(),
        pf@ == structure_pf(*sg),
        blobs@ == structure_blobs(*sg),
    ensures
        c@ == structure_class(*sg, n as int),
{
    proof {
        assert(sg.f + sg.m <= usize::MAX) by (nonlinear_arith)
            requires 4 * (sg.m * (sg.f + sg.m)) <= usize::MAX, sg.m >= 1, sg.f >= 0;
    }
    let w = sg.apery_set[n % sg.m];
    if n > sg.f + sg.m {
        "sg-large"
    } else if n == sg.f {
        "sg-frob"
    } else if vec_contains(&sg.gen_set, n) {
        "sg-gen"
    } else if n == w {
        "sg-apery"
    } else if sg.element(n) {
        "sg-in"
    } else if vec_contains(pf, n) {
        "sg-pf"
    } else if vec_contains(blobs, n) {
        "sg-blob"
    } else {
        "sg-out"
    }
}

/// Bounds on the numbers of the structure grid.
proof fn lemma_structure_bounds(s: Semigroup, offset: int, width: int, row: int, col: int)
    requires
        offset >= 0,
        s.f >= 0,
        structure_fits(s, offset, width),
        -1 <= row <= (s.f as int) / width + 2,
        0 <= col < width,
    ensures
        -width <= row * width + offset + col <= isize::MAX / 2,
        -width <= row * width <= isize::MAX / 2,
{
    let f = s.f as int;
    assert(row * width <= f + 2 * width) by (nonlinear_arith)
        requires row <= f / width + 2, width >= 1, f >= 0;
    assert(row * width >= -width) by (nonlinear_arith) requires row >= -1, width >= 1;
}

/// Appends row `row` of the structure grid.
fn push_structure_row(
    out: &mut String,
    sg: &Semigroup,
    pf: &Vec<usize>,
    blobs: &Vec<usize>,
    offset: usize,
    width: usize,
    row: isize,
)
    requires
        sg.wf(),
        pf@ == structure_pf(*sg),
        blobs@ == structure_blobs(*sg),
        structure_fits(*sg, offset as int, width as int),
        -1 <= row <= sg.f / width + 2,
    ensures
        final(out)@ == old(out)@ + structure_row(*sg, offset as int, width as int, row as int),
{
    proof {
        lemma_structure_bounds(*sg, offset as int, width as int, row as int, 0);
    }
    let wi = width as isize;
    let base: isize = row * wi + offset as isize;
    out.append("<tr>");
    let ghost mid = out@;
    let ghost f = |col: int| structure_cell(*sg, row * width + offset + col);
    let mut col: usize = 0;
    while col < width
        invariant
            sg.wf(),
            pf@ == structure_pf(*sg),
            blobs@ == structure_blobs(*sg),
            structure_fits(*sg, offset as int, width as int),
            -1 <= row <= sg.f / width + 2,
            wi == width,
            base == row * width + offset,
            col <= width,
            f == (|col: int| structure_cell(*sg, row * width + offset + col)),
            out@ == mid + concat_n(col as nat, f),
        decreases width - col,
    {
        proof {
            lemma_structure_bounds(*sg, offset as int, width as int, row as int, col as int);
        }
        let n_signed: isize = base + col as isize;
        if n_signed < 0 {
            out.append("<td class=\"sg-empty\"></td>");
        } else {
            let n = n_signed as usize;
            out.append("<td class=\"");
            out.append(structure_cls(sg, pf, blobs, n));
            out.append("\">");
            push_usize(out, n);
            out.append("</td>");
        }
        proof {
            assert(concat_n((col + 1) as nat, f) == concat_n(col as nat, f) + f(col as int));
            assert(out@ =~= mid + concat_n((col + 1) as nat, f));
        }
        col = col + 1;
    }
    out.append("</tr>");
    proof {
        assert(final(out)@ =~= old(out)@ + structure_row(*sg, offset as int, width as int, row as int));
    }
}

/// The structure grid of `sg` with `width` columns: column `col` holds the
/// residue `(offset + col) mod width`, values grow left to right and bottom
/// to top, each number classed as in [`structure_class`]; with `offset > 0`
/// an extra bottom row keeps `0..width` in view, its negative cells empty.
pub fn structure_table(sg: &Semigroup, offset: usize, width: usize) -> (html: String)
    requires
        sg.wf(),
        structure_fits(*sg, offset as int, width as int),
    ensures
        html@ == structure_text(*sg, offset as int, width as int),
{
    let blobs = sg.blob();
    let pf = sg.pft().0.0;
    let mut out = String::new();
    out.append("<table class=\"sg-grid\"><thead><tr>");
    let ghost h0 = out@;
    let ghost hf = |col: int| "<th>"@ + dec(((offset + col) % (width as int)) as nat) + "</th>"@;
    let mut col: usize = 0;
    while col < width
        invariant
            structure_fits(*sg, offset as int, width as int),
            col <= width,
            hf == (|col: int| "<th>"@ + dec(((offset + col) % (width as int)) as nat) + "</th>"@),
            out@ == h0 + concat_n(col as nat, hf),
        decreases width - col,
    {
        out.append("<th>");
        push_usize(&mut out, (offset + col) % width);
        out.append("</th>");
        proof {
            assert(concat_n((col + 1) as nat, hf) == concat_n(col as nat, hf) + hf(col as int));
            assert(out@ =~= h0 + concat_n((col + 1) as nat, hf));
        }
        col = col + 1;
    }
    out.append("</tr></thead><tbody>");
    proof {
        assert(sg.f / width <= sg.f) by (nonlinear_arith) requires width >= 1, sg.f >= 0;
    }
    let start_row: isize = if offset == 0 { 0 } else { -1 };
    let end_row: isize = (sg.f / width + 3) as isize;
    let ghost mid = out@;
    let mut row: isize = end_row;
    while row > start_row
        invariant
            sg.wf(),
            pf@ == structure_pf(*sg),
            blobs@ == structure_blobs(*sg),
            structure_fits(*sg, offset as int, width as int),
            start_row <= row <= end_row,
            end_row == sg.f / width + 3,
            -1 <= start_row <= 0,
            mid + structure_rows(*sg, offset as int, width as int, end_row as int, start_row as int)
                == out@ + structure_rows(*sg, offset as int, width as int, row as int, start_row as int),
        decreases row - start_row,
    {
        let ghost before = out@;
        push_structure_row(&mut out, sg, &pf, &blobs, offset, width, row - 1);
        proof {
            assert(before + structure_rows(*sg, offset as int, width as int, row as int, start_row as int)
                =~= out@ + structure_rows(*sg, offset as int, width as int, row - 1, start_row as int));
        }
        row = row - 1;
    }
    out.append("</tbody></table>");
    proof {
        assert(out@ =~= structure_text(*sg, offset as int, width as int));
    }
    out
}

/// The combined grid, Apéry row and Kunz matrix of the first calculator
/// view: laid out as [`crate::grid::combined_table`] lays it out without
/// strata, each number classed as the earlier views class it
/// ([`crate::html::get_cls_text`]), so that numbers in `(f, f + m]` keep
/// their own class.
pub fn combined_table(sg: &Semigroup, offset: usize, tilt: i32, show_kunz: bool) -> (html: String)
    requires
        sg.wf(),
        grid_fits(*sg, offset as int, tilt as int),
    ensures
        html@ == combined_text(*sg, offset as int, tilt as int, show_kunz, false, true),
{
    build_combined(sg, offset, tilt, show_kunz, false, true)
}

} // verus!
