//! The combined view of a semigroup: the grid of numbers by residue class
//! (optionally sheared by a tilt and outlined by strata), the residue
//! separator, the Apéry row and the Kunz matrix.
use vstd::prelude::*;
use vstd::string::StringExecFns;
use crate::html::{cell_class, cell_cls, kunz_cls, push_span, span_text, get_cls, get_cls_text};
use crate::generated::seq_has;
use crate::inspect::{classify_spec, kunz_spec, vec_contains};
use crate::semigroup::Semigroup;
use crate::strata::dec;
use crate::text::{int_text, push_int, push_usize};

verus! {

/// `f(0) + f(1) + … + f(k − 1)`.
pub open spec fn concat_n(k: nat, f: spec_fn(int) -> Seq<char>) -> Seq<char>
    decreases k,
{
    if k == 0 {
        Seq::empty()
    } else {
        concat_n((k - 1) as nat, f) + f(k - 1)
    }
}

/// `|t|`.
pub open spec fn abs(t: int) -> int {
    if t < 0 { -t } else { t }
}

/// The numbers of the grid and of their neighbours stay well inside
/// `isize`.
pub open spec fn grid_fits(s: Semigroup, offset: int, tilt: int) -> bool {
    4 * (offset + s.f + 8 * s.m + abs(tilt) * (s.f + 4) + 4) <= isize::MAX
}

/// The strata rectangle of `n` as `(left side, level)`: for `m ≥ 2`, with
/// `l = n / m` and `i = n mod m`, the cells with `l ≤ level`, `i ∉ {0, μ}`,
/// on the left when `i < μ`; no rectangle otherwise.
pub open spec fn strata_spec(s: Semigroup, n: int) -> Option<(bool, int)> {
    if n < 0 || s.m < 2 {
        None
    } else {
        let l = n / (s.m as int);
        let i = n % (s.m as int);
        if l > s.level || i == 0 || i == s.mu {
            None
        } else {
            Some((i < s.mu, l))
        }
    }
}

/// Adds the class `name` when `c`, separated by a space.
pub open spec fn add_class(acc: Seq<char>, c: bool, name: Seq<char>) -> Seq<char> {
    if !c { acc } else if acc.len() == 0 { name } else { acc + " "@ + name }
}

/// The border classes of the cell `n` in a view sheared by `tilt`: the sides
/// (top, bottom, left, right) whose neighbour `n + m − tilt`,
/// `n − m + tilt`, `n − 1`, `n + 1` lies outside the strata rectangle of `n`.
pub open spec fn borders_spec(s: Semigroup, n: int, tilt: int) -> Seq<char> {
    let own = strata_spec(s, n);
    let m = s.m as int;
    if n < 0 || own is None {
        Seq::empty()
    } else {
        add_class(
            add_class(
                add_class(
                    add_class(Seq::empty(), strata_spec(s, n + m - tilt) != own, "strata-t"@),
                    strata_spec(s, n - m + tilt) != own, "strata-b"@),
                strata_spec(s, n - 1) != own, "strata-l"@),
            strata_spec(s, n + 1) != own, "strata-r"@)
    }
}

/// The strata rectangle of `n`.
fn strata_of(n: isize, sg: &Semigroup) -> (r: Option<(bool, usize)>)
    requires
        sg.wf(),
    ensures
        r matches Some((left, l)) ==> strata_spec(*sg, n as int) == Some((left, l as int)),
        r is None ==> strata_spec(*sg, n as int) is None,
{
    if n < 0 || sg.m < 2 {
        return None;
    }
    let u = n as usize;
    let l = u / sg.m;
    let i = u % sg.m;
    if l > sg.level || i == 0 || i == sg.mu {
        None
    } else {
        Some((i < sg.mu, l))
    }
}

/// Two optional rectangles are the same.
fn same_strata(a: Option<(bool, usize)>, b: Option<(bool, usize)>) -> (e: bool)
    ensures
        e == (a == b),
{
    match (a, b) {
        (None, None) => true,
        (Some((x, l)), Some((y, k))) => x == y && l == k,
        _ => false,
    }
}

/// Appends `name` when `c`, after a space if something came before.
fn push_class(out: &mut String, c: bool, name: &str)
    ensures
        final(out)@ == add_class(old(out)@, c, name@),
{
    if c {
        if out.unicode_len() > 0 {
            out.append(" ");
        }
        out.append(name);
    }
    proof {
        reveal_strlit(" ");
    }
}

/// The border classes of the cell `n`.
fn strata_borders(n: isize, sg: &Semigroup, tilt: i32) -> (b: String)
    requires
        sg.wf(),
        grid_fits(*sg, 0, tilt as int),
        -(isize::MAX / 2) <= n <= isize::MAX / 2,
    ensures
        b@ == borders_spec(*sg, n as int, tilt as int),
{
    let mut out = String::new();
    if n < 0 {
        return out;
    }
    let own = strata_of(n, sg);
    if own.is_none() {
        return out;
    }
    proof {
        assert(sg.m <= isize::MAX / 4);
        assert(abs(tilt as int) <= isize::MAX / 4) by (nonlinear_arith)
            requires 4 * (sg.f + 8 * sg.m + abs(tilt as int) * (sg.f + 4) + 4) <= isize::MAX, sg.f >= 0, sg.m >= 0;
    }
    let mi = sg.m as isize;
    let ti = tilt as isize;
    let top = strata_of(n + mi - ti, sg);
    let bottom = strata_of(n - mi + ti, sg);
    let left = strata_of(n - 1, sg);
    let right = strata_of(n + 1, sg);
    let bt = !same_strata(top, own);
    let bb = !same_strata(bottom, own);
    let bl = !same_strata(left, own);
    let br = !same_strata(right, own);
    proof {
        let o = strata_spec(*sg, n as int);
        assert(bt == (strata_spec(*sg, n + sg.m - tilt) != o));
        assert(bb == (strata_spec(*sg, n - sg.m + tilt) != o));
        assert(bl == (strata_spec(*sg, n - 1) != o));
        assert(br == (strata_spec(*sg, n + 1) != o));
    }
    push_class(&mut out, bt, "strata-t");
    push_class(&mut out, bb, "strata-b");
    push_class(&mut out, bl, "strata-l");
    push_class(&mut out, br, "strata-r");
    out
}

/// A grid cell holding `n`: its residue as `data-res`, the border classes
/// when there are any, and the span of `n` with its class.
pub open spec fn cell_td(cls: Seq<char>, n: nat, res: nat, extra: Seq<char>) -> Seq<char> {
    (if extra.len() == 0 { "<td data-res=\""@ } else { "<td class=\""@ + extra + "\" data-res=\""@ }) + dec(res) + "\">"@
        + span_text(cls, n, true) + "</td>"@
}

/// The grid shows five blocks of `m` columns, from `−2m`, when it is tilted
/// and `m ≤ 15`; otherwise the `m` columns from 0.
pub open spec fn wide(s: Semigroup, tilt: int) -> bool {
    s.m <= 15 && tilt != 0
}

/// The first column of the grid.
pub open spec fn col_start(s: Semigroup, tilt: int) -> int {
    if wide(s, tilt) { -2 * (s.m as int) } else { 0 }
}

/// The number of columns of the grid.
pub open spec fn col_count(s: Semigroup, tilt: int) -> int {
    if wide(s, tilt) { 5 * (s.m as int) } else { s.m as int }
}

/// The number in row `row` and column `col`: `row·m + offset + col − tilt·row`.
pub open spec fn grid_value(s: Semigroup, offset: int, tilt: int, row: int, col: int) -> int {
    row * (s.m as int) + offset + col - tilt * row
}

/// The class of `n` in the grid: that of [`cell_class`], or with `classic`
/// that of the earlier views ([`get_cls_text`]).
pub open spec fn grid_class(s: Semigroup, n: int, classic: bool) -> Seq<char> {
    if classic { get_cls_text(s, n, false) } else { cell_class(s, n) }
}

/// The class of `n` in the grid (see [`grid_class`]).
fn grid_cls(n: usize, sg: &Semigroup, classic: bool) -> (c: &'static str)
    requires
        sg.wf(),
    ensures
        c@ == grid_class(*sg, n as int, classic),
{
    if classic { get_cls(n, false, sg) } else { cell_cls(n, sg) }
}

/// The cell in row `row` and column `col`: empty below 0, else the number
/// with its class, residue and, when strata are shown, border classes.
pub open spec fn grid_cell(s: Semigroup, offset: int, tilt: int, strata: bool, classic: bool, row: int, col: int) -> Seq<char> {
    let n = grid_value(s, offset, tilt, row, col);
    let res = (offset + col) % (s.m as int);
    if n < 0 {
        "<td class=\"sg-empty\"></td>"@
    } else {
        cell_td(grid_class(s, n, classic), n as nat, res as nat, if strata { borders_spec(s, n, tilt) } else { Seq::empty() })
    }
}

/// The cells of row `row`, by column index.
pub open spec fn row_cells(s: Semigroup, offset: int, tilt: int, strata: bool, classic: bool, row: int) -> spec_fn(int) -> Seq<char> {
    |idx: int| grid_cell(s, offset, tilt, strata, classic, row, col_start(s, tilt) + idx)
}

/// One row of the grid.
pub open spec fn grid_row(s: Semigroup, offset: int, tilt: int, strata: bool, classic: bool, row: int) -> Seq<char> {
    "<tr>"@ + concat_n(col_count(s, tilt) as nat, row_cells(s, offset, tilt, strata, classic, row)) + "</tr>"@
}

/// The rows `hi − 1, hi − 2, …, lo`, top-down.
pub open spec fn grid_rows(s: Semigroup, offset: int, tilt: int, strata: bool, classic: bool, hi: int, lo: int) -> Seq<char>
    decreases hi - lo,
{
    if hi <= lo {
        Seq::empty()
    } else {
        grid_row(s, offset, tilt, strata, classic, hi - 1) + grid_rows(s, offset, tilt, strata, classic, hi - 1, lo)
    }
}

/// Appends the cell in row `row` and column `col`.
fn push_grid_cell(out: &mut String, sg: &Semigroup, offset: usize, tilt: i32, strata: bool, classic: bool, row: isize, col: isize)
    requires
        sg.wf(),
        grid_fits(*sg, offset as int, tilt as int),
        -1 <= row <= sg.f / sg.m + 3,
        -2 * sg.m <= col <= 3 * sg.m,
    ensures
        final(out)@ == old(out)@ + grid_cell(*sg, offset as int, tilt as int, strata, classic, row as int, col as int),
{
    let ghost n_spec = grid_value(*sg, offset as int, tilt as int, row as int, col as int);
    proof {
        lemma_grid_bounds(*sg, offset as int, tilt as int, row as int, col as int);
    }
    let mi = sg.m as isize;
    let n_signed: isize = row * mi + offset as isize + col - (tilt as isize) * row;
    if n_signed < 0 {
        out.append("<td class=\"sg-empty\"></td>");
        return;
    }
    let n = n_signed as usize;
    let shifted: usize = (offset as isize + col + 2 * mi) as usize;
    let res: usize = shifted % sg.m;
    proof {
        let x = offset as int + col;
        let m = sg.m as int;
        assert((x + 2 * m) % m == x % m) by {
            vstd::arithmetic::div_mod::lemma_mod_add_multiples_vanish(x + m, m);
            vstd::arithmetic::div_mod::lemma_mod_add_multiples_vanish(x, m);
        }
    }
    let cls = grid_cls(n, sg, classic);
    let extra = if strata { strata_borders(n_signed, sg, tilt) } else { String::new() };
    if extra.unicode_len() == 0 {
        out.append("<td data-res=\"");
    } else {
        out.append("<td class=\"");
        out.append(extra.as_str());
        out.append("\" data-res=\"");
    }
    push_usize(out, res);
    out.append("\">");
    push_span(out, cls, n, true);
    out.append("</td>");
    proof {
        assert(final(out)@ =~= old(out)@ + grid_cell(*sg, offset as int, tilt as int, strata, classic, row as int, col as int));
    }
}

/// The sizes in a grid cell stay in range.
proof fn lemma_grid_bounds(s: Semigroup, offset: int, tilt: int, row: int, col: int)
    requires
        s.wf(),
        offset >= 0,
        grid_fits(s, offset, tilt),
        -1 <= row <= s.f / s.m + 3,
        -2 * s.m <= col <= 3 * s.m,
    ensures
        -(isize::MAX / 2) <= grid_value(s, offset, tilt, row, col) <= isize::MAX / 2,
        -(isize::MAX / 2) <= row * (s.m as int) <= isize::MAX / 2,
        -(isize::MAX / 2) <= tilt * row <= isize::MAX / 2,
        offset + col <= isize::MAX / 2,
        offset <= isize::MAX / 2,
        s.m <= isize::MAX / 2,
        grid_fits(s, 0, tilt),
{
    let m = s.m as int;
    let f = s.f as int;
    assert(row * m <= f + 3 * m) by (nonlinear_arith) requires row <= f / m + 3, m >= 1, f >= 0;
    assert(row * m >= -m) by (nonlinear_arith) requires row >= -1, m >= 1;
    assert(abs(tilt * row) <= abs(tilt) * (f + 4)) by (nonlinear_arith)
        requires -1 <= row <= f / m + 3, m >= 1, f >= 0;
    assert(abs(tilt) * (f + 4) >= 0) by (nonlinear_arith) requires f >= 0;
    assert(abs(tilt) >= 0);
    assert(offset + f + 8 * m + abs(tilt) * (f + 4) + 4 <= isize::MAX / 4);
}

/// Appends one row of the grid.
#[verifier::spinoff_prover]
fn push_grid_row(out: &mut String, sg: &Semigroup, offset: usize, tilt: i32, strata: bool, classic: bool, row: isize)
    requires
        sg.wf(),
        grid_fits(*sg, offset as int, tilt as int),
        -1 <= row <= sg.f / sg.m + 3,
    ensures
        final(out)@ == old(out)@ + grid_row(*sg, offset as int, tilt as int, strata, classic, row as int),
{
    proof {
        lemma_grid_bounds(*sg, offset as int, tilt as int, row as int, 0);
    }
    let mi = sg.m as isize;
    let w = sg.m <= 15 && tilt != 0;
    let start: isize = if w { -2 * mi } else { 0 };
    let count: usize = if w { 5 * sg.m } else { sg.m };
    out.append("<tr>");
    let ghost mid = out@;
    let ghost f = row_cells(*sg, offset as int, tilt as int, strata, classic, row as int);
    let mut idx: usize = 0;
    while idx < count
        invariant
            sg.wf(),
            grid_fits(*sg, offset as int, tilt as int),
            -1 <= row <= sg.f / sg.m + 3,
            mi == sg.m,
            sg.m <= isize::MAX / 2,
            start == col_start(*sg, tilt as int),
            count == col_count(*sg, tilt as int),
            idx <= count,
            f == row_cells(*sg, offset as int, tilt as int, strata, classic, row as int),
            out@ == mid + concat_n(idx as nat, f),
        decreases count - idx,
    {
        let col: isize = start + idx as isize;
        push_grid_cell(out, sg, offset, tilt, strata, classic, row, col);
        proof {
            assert(concat_n((idx + 1) as nat, f) == concat_n(idx as nat, f) + f(idx as int));
        }
        idx = idx + 1;
    }
    out.append("</tr>");
    proof {
        assert(final(out)@ =~= old(out)@ + grid_row(*sg, offset as int, tilt as int, strata, classic, row as int));
    }
}

/// The header cells: the residue of each column.
pub open spec fn header_cells(s: Semigroup, offset: int, tilt: int) -> spec_fn(int) -> Seq<char> {
    |idx: int| "<th>"@ + dec(((offset + col_start(s, tilt) + idx) % (s.m as int)) as nat) + "</th>"@
}

/// The residue `(offset + k) mod m` shown in position `k` of the separator,
/// Apéry and Kunz rows.
pub open spec fn perm(s: Semigroup, offset: int, k: int) -> int {
    (offset + k) % (s.m as int)
}

/// The separator cells: one per residue, in the order of `perm`.
pub open spec fn sep_cells(s: Semigroup, offset: int) -> spec_fn(int) -> Seq<char> {
    |k: int| "<th class=\"residue-sep\" data-k=\""@ + dec(perm(s, offset, k) as nat) + "\">"@
        + dec(perm(s, offset, k) as nat) + "</th>"@
}

/// The Apéry cells: `w_i` with its class, for `i` in the order of `perm`.
pub open spec fn apery_cells(s: Semigroup, offset: int, classic: bool) -> spec_fn(int) -> Seq<char> {
    |k: int| {
        let i = perm(s, offset, k);
        let v = s.apery_set@[i] as int;
        "<td data-k=\""@ + dec(i as nat) + "\">"@ + span_text(grid_class(s, v, classic), v as nat, true) + "</td>"@
    }
}

/// The class of a Kunz-coefficient cell.
pub open spec fn kunz_class(v: int) -> Seq<char> {
    if v == 0 { "kunz-zero"@ } else { ""@ }
}

/// The Kunz cell `c(i, j)`, with `i`, `j` and `(i + j) mod m` as data.
pub open spec fn kunz_cell(s: Semigroup, i: int, j: int) -> Seq<char> {
    let v = kunz_spec(s.apery_set@, s.m as int, i, j);
    "<td class=\""@ + kunz_class(v) + "\" data-kunz-i=\""@ + dec(i as nat) + "\" data-kunz-j=\""@ + dec(j as nat)
        + "\" data-kunz-sum=\""@ + dec(((i + j) % (s.m as int)) as nat) + "\">"@ + dec(v as nat) + "</td>"@
}

/// The cells of the Kunz row of `i`.
pub open spec fn kunz_row_cells(s: Semigroup, offset: int, i: int) -> spec_fn(int) -> Seq<char> {
    |k: int| kunz_cell(s, i, perm(s, offset, k))
}

/// The Kunz rows, in the order of `perm`.
pub open spec fn kunz_rows(s: Semigroup, offset: int) -> spec_fn(int) -> Seq<char> {
    |k: int| {
        let i = perm(s, offset, k);
        "<tr data-kunz-i=\""@ + dec(i as nat) + "\">"@ + concat_n(s.m as nat, kunz_row_cells(s, offset, i)) + "</tr>"@
    }
}

/// The combined view: the header of residues; the grid rows from
/// `⌊f/m⌋ + 2` down to 0 (down to −1 when tilted with `m ≤ 15` or shifted
/// by `offset`); the residue separator; the Apéry row; and, with
/// `show_kunz`, the Kunz matrix; in the order of the residues
/// `(offset + k) mod m`.
pub open spec fn combined_text(s: Semigroup, offset: int, tilt: int, show_kunz: bool, show_strata: bool, classic: bool) -> Seq<char> {
    let m = s.m as int;
    let start_row = if wide(s, tilt) || offset != 0 { -1int } else { 0int };
    let end_row = (s.f as int) / m + 3;
    "<table class=\""@ + (if show_strata { "sg-grid sg-grid-strata"@ } else { "sg-grid"@ }) + "\"><thead>"@
        + "<tr>"@ + concat_n(col_count(s, tilt) as nat, header_cells(s, offset, tilt)) + "</tr>"@
        + "</thead><tbody>"@
        + grid_rows(s, offset, tilt, show_strata, classic, end_row, start_row)
        + "<tr class=\"residue-sep-row\">"@ + concat_n(m as nat, sep_cells(s, offset)) + "</tr>"@
        + "<tr class=\"apery-row\">"@ + concat_n(m as nat, apery_cells(s, offset, classic)) + "</tr>"@
        + (if show_kunz { concat_n(m as nat, kunz_rows(s, offset)) } else { Seq::empty() })
        + "</tbody></table>"@
}

/// `(offset + k) mod m`, computed without overflow.
fn perm_exec(sg: &Semigroup, offset: usize, k: usize) -> (p: usize)
    requires
        sg.wf(),
        offset + k <= usize::MAX,
    ensures
        p == perm(*sg, offset as int, k as int),
        p < sg.m,
{
    (offset + k) % sg.m
}

/// Appends the header row of residues.
fn push_header_row(out: &mut String, sg: &Semigroup, offset: usize, tilt: i32)
    requires
        sg.wf(),
        grid_fits(*sg, offset as int, tilt as int),
    ensures
        final(out)@ == old(out)@ + "<tr>"@ + concat_n(col_count(*sg, tilt as int) as nat, header_cells(*sg, offset as int, tilt as int)) + "</tr>"@,
{
    proof {
        lemma_grid_bounds(*sg, offset as int, tilt as int, 0, 0);
    }
    let mi = sg.m as isize;
    let w = sg.m <= 15 && tilt != 0;
    proof {
        assert(-2 * mi >= -isize::MAX);
    }
    let start: isize = if w { -2 * mi } else { 0 };
    let count: usize = if w { 5 * sg.m } else { sg.m };
    out.append("<tr>");
    let ghost mid = out@;
    let ghost f = header_cells(*sg, offset as int, tilt as int);
    let mut idx: usize = 0;
    while idx < count
        invariant
            sg.wf(),
            grid_fits(*sg, offset as int, tilt as int),
            offset <= isize::MAX / 2,
            mi == sg.m,
            sg.m <= isize::MAX / 2,
            start == col_start(*sg, tilt as int),
            count == col_count(*sg, tilt as int),
            idx <= count,
            f == header_cells(*sg, offset as int, tilt as int),
            out@ == mid + concat_n(idx as nat, f),
        decreases count - idx,
    {
        let shifted: usize = (offset as isize + start + idx as isize + 2 * mi) as usize;
        let res: usize = shifted % sg.m;
        proof {
            let x = offset as int + start + idx;
            let m = sg.m as int;
            assert((x + 2 * m) % m == x % m) by {
                vstd::arithmetic::div_mod::lemma_mod_add_multiples_vanish(x + m, m);
                vstd::arithmetic::div_mod::lemma_mod_add_multiples_vanish(x, m);
            }
        }
        out.append("<th>");
        push_usize(out, res);
        out.append("</th>");
        proof {
            assert(concat_n((idx + 1) as nat, f) == concat_n(idx as nat, f) + f(idx as int));
            assert(out@ =~= mid + concat_n((idx + 1) as nat, f));
        }
        idx = idx + 1;
    }
    out.append("</tr>");
    proof {
        assert(final(out)@ =~= old(out)@ + "<tr>"@ + concat_n(col_count(*sg, tilt as int) as nat, header_cells(*sg, offset as int, tilt as int)) + "</tr>"@);
    }
}

/// Appends the residue separator row.
fn push_sep_row(out: &mut String, sg: &Semigroup, offset: usize)
    requires
        sg.wf(),
        offset + sg.m <= usize::MAX,
    ensures
        final(out)@ == old(out)@ + "<tr class=\"residue-sep-row\">"@ + concat_n(sg.m as nat, sep_cells(*sg, offset as int)) + "</tr>"@,
{
    out.append("<tr class=\"residue-sep-row\">");
    let ghost mid = out@;
    let ghost f = sep_cells(*sg, offset as int);
    let mut k: usize = 0;
    while k < sg.m
        invariant
            sg.wf(),
            offset + sg.m <= usize::MAX,
            k <= sg.m,
            f == sep_cells(*sg, offset as int),
            out@ == mid + concat_n(k as nat, f),
        decreases sg.m - k,
    {
        let p = perm_exec(sg, offset, k);
        out.append("<th class=\"residue-sep\" data-k=\"");
        push_usize(out, p);
        out.append("\">");
        push_usize(out, p);
        out.append("</th>");
        proof {
            assert(concat_n((k + 1) as nat, f) == concat_n(k as nat, f) + f(k as int));
            assert(out@ =~= mid + concat_n((k + 1) as nat, f));
        }
        k = k + 1;
    }
    out.append("</tr>");
    proof {
        assert(final(out)@ =~= old(out)@ + "<tr class=\"residue-sep-row\">"@ + concat_n(sg.m as nat, sep_cells(*sg, offset as int)) + "</tr>"@);
    }
}

/// Appends the Apéry row.
fn push_apery_row(out: &mut String, sg: &Semigroup, offset: usize, classic: bool)
    requires
        sg.wf(),
        offset + sg.m <= usize::MAX,
    ensures
        final(out)@ == old(out)@ + "<tr class=\"apery-row\">"@ + concat_n(sg.m as nat, apery_cells(*sg, offset as int, classic)) + "</tr>"@,
{
    out.append("<tr class=\"apery-row\">");
    let ghost mid = out@;
    let ghost f = apery_cells(*sg, offset as int, classic);
    let mut k: usize = 0;
    while k < sg.m
        invariant
            sg.wf(),
            offset + sg.m <= usize::MAX,
            k <= sg.m,
            f == apery_cells(*sg, offset as int, classic),
            out@ == mid + concat_n(k as nat, f),
        decreases sg.m - k,
    {
        let i = perm_exec(sg, offset, k);
        let v = sg.apery_set[i];
        out.append("<td data-k=\"");
        push_usize(out, i);
        out.append("\">");
        push_span(out, grid_cls(v, sg, classic), v, true);
        out.append("</td>");
        proof {
            assert(concat_n((k + 1) as nat, f) == concat_n(k as nat, f) + f(k as int));
            assert(out@ =~= mid + concat_n((k + 1) as nat, f));
        }
        k = k + 1;
    }
    out.append("</tr>");
    proof {
        assert(final(out)@ =~= old(out)@ + "<tr class=\"apery-row\">"@ + concat_n(sg.m as nat, apery_cells(*sg, offset as int, classic)) + "</tr>"@);
    }
}

/// Appends one Kunz cell.
fn push_kunz_cell(out: &mut String, sg: &Semigroup, i: usize, j: usize)
    requires
        sg.wf(),
        i < sg.m,
        j < sg.m,
    ensures
        final(out)@ == old(out)@ + kunz_cell(*sg, i as int, j as int),
{
    let v = sg.kunz(i, j);
    proof {
        assert(sg.m + sg.m <= usize::MAX) by (nonlinear_arith)
            requires 4 * (sg.m * (sg.f + sg.m)) <= usize::MAX, sg.m >= 1;
    }
    let sum = (i + j) % sg.m;
    out.append("<td class=\"");
    out.append(kunz_cls(v));
    out.append("\" data-kunz-i=\"");
    push_usize(out, i);
    out.append("\" data-kunz-j=\"");
    push_usize(out, j);
    out.append("\" data-kunz-sum=\"");
    push_usize(out, sum);
    out.append("\">");
    push_usize(out, v);
    out.append("</td>");
    proof {
        assert(final(out)@ =~= old(out)@ + kunz_cell(*sg, i as int, j as int));
    }
}

/// Appends the Kunz row of the residue in position `k`.
fn push_kunz_row(out: &mut String, sg: &Semigroup, offset: usize, k: usize)
    requires
        sg.wf(),
        offset + sg.m <= usize::MAX,
        k < sg.m,
    ensures
        final(out)@ == old(out)@ + kunz_rows(*sg, offset as int)(k as int),
{
    let i = perm_exec(sg, offset, k);
    out.append("<tr data-kunz-i=\"");
    push_usize(out, i);
    out.append("\">");
    let ghost mid = out@;
    let ghost f = kunz_row_cells(*sg, offset as int, i as int);
    let mut k2: usize = 0;
    while k2 < sg.m
        invariant
            sg.wf(),
            offset + sg.m <= usize::MAX,
            i < sg.m,
            k2 <= sg.m,
            f == kunz_row_cells(*sg, offset as int, i as int),
            out@ == mid + concat_n(k2 as nat, f),
        decreases sg.m - k2,
    {
        let j = perm_exec(sg, offset, k2);
        push_kunz_cell(out, sg, i, j);
        proof {
            assert(concat_n((k2 + 1) as nat, f) == concat_n(k2 as nat, f) + f(k2 as int));
        }
        k2 = k2 + 1;
    }
    out.append("</tr>");
    proof {
        assert(final(out)@ =~= old(out)@ + kunz_rows(*sg, offset as int)(k as int));
    }
}

/// The combined view, its cells classed as [`grid_class`] says.
pub(crate) fn build_combined(
    sg: &Semigroup,
    offset: usize,
    tilt: i32,
    show_kunz: bool,
    show_strata: bool,
    classic: bool,
) -> (html: String)
    requires
        sg.wf(),
        grid_fits(*sg, offset as int, tilt as int),
    ensures
        html@ == combined_text(*sg, offset as int, tilt as int, show_kunz, show_strata, classic),
{
    proof {
        lemma_grid_bounds(*sg, offset as int, tilt as int, 0, 0);
    }
    let m = sg.m;
    let mut html = String::new();
    html.append("<table class=\"");
    if show_strata {
        html.append("sg-grid sg-grid-strata");
    } else {
        html.append("sg-grid");
    }
    html.append("\"><thead>");
    push_header_row(&mut html, sg, offset, tilt);
    html.append("</thead><tbody>");
    let w = m <= 15 && tilt != 0;
    let start_row: isize = if w || offset != 0 { -1 } else { 0 };
    let end_row: isize = (sg.f / m + 3) as isize;
    proof {
        assert(sg.f / sg.m <= sg.f) by (nonlinear_arith) requires sg.m >= 1, sg.f >= 0;
    }
    let ghost mid = html@;
    let mut row: isize = end_row;
    while row > start_row
        invariant
            sg.wf(),
            grid_fits(*sg, offset as int, tilt as int),
            start_row <= row <= end_row,
            end_row == sg.f / sg.m + 3,
            -1 <= start_row <= 0,
            mid + grid_rows(*sg, offset as int, tilt as int, show_strata, classic, end_row as int, start_row as int)
                == html@ + grid_rows(*sg, offset as int, tilt as int, show_strata, classic, row as int, start_row as int),
        decreases row - start_row,
    {
        let ghost before = html@;
        push_grid_row(&mut html, sg, offset, tilt, show_strata, classic, row - 1);
        proof {
            assert(grid_rows(*sg, offset as int, tilt as int, show_strata, classic, row as int, start_row as int)
                == grid_row(*sg, offset as int, tilt as int, show_strata, classic, row - 1)
                + grid_rows(*sg, offset as int, tilt as int, show_strata, classic, row - 1, start_row as int));
            assert(before + grid_rows(*sg, offset as int, tilt as int, show_strata, classic, row as int, start_row as int)
                =~= html@ + grid_rows(*sg, offset as int, tilt as int, show_strata, classic, row - 1, start_row as int));
        }
        row = row - 1;
    }
    proof {
        assert(grid_rows(*sg, offset as int, tilt as int, show_strata, classic, start_row as int, start_row as int) == Seq::<char>::empty());
    }
    push_sep_row(&mut html, sg, offset);
    push_apery_row(&mut html, sg, offset, classic);
    let ghost before_kunz = html@;
    if show_kunz {
        let ghost f = kunz_rows(*sg, offset as int);
        let mut k: usize = 0;
        while k < m
            invariant
                sg.wf(),
                m == sg.m,
                offset + sg.m <= usize::MAX,
                k <= m,
                f == kunz_rows(*sg, offset as int),
                html@ == before_kunz + concat_n(k as nat, f),
            decreases m - k,
        {
            push_kunz_row(&mut html, sg, offset, k);
            proof {
                assert(concat_n((k + 1) as nat, f) == concat_n(k as nat, f) + f(k as int));
            }
            k = k + 1;
        }
    }
    html.append("</tbody></table>");
    proof {
        assert(html@ =~= combined_text(*sg, offset as int, tilt as int, show_kunz, show_strata, classic));
    }
    html
}

/// The combined grid, Apéry row and Kunz matrix of `sg`. With `tilt ≠ 0`
/// and `m ≤ 15` the grid spans the columns `−2m..3m` of the sheared view
/// (the number in row `y`, column `x` is `y·m + offset + x − tilt·y`),
/// otherwise `0..m`; with `show_strata` each cell of a strata rectangle
/// carries the classes of the sides on which it borders another rectangle.
pub fn combined_table(sg: &Semigroup, offset: usize, tilt: i32, show_kunz: bool, show_strata: bool) -> (html: String)
    requires
        sg.wf(),
        grid_fits(*sg, offset as int, tilt as int),
    ensures
        html@ == combined_text(*sg, offset as int, tilt as int, show_kunz, show_strata, false),
{
    build_combined(sg, offset, tilt, show_kunz, show_strata, false)
}

/// The header cell of column `x` in the tilted view; column 0 is the axis.
pub open spec fn tilt_header_cells(s: Semigroup) -> spec_fn(int) -> Seq<char> {
    |idx: int| {
        let x = idx - 3 * (s.m as int);
        if x == 0 { "<th class=\"tilt-axis\">"@ + int_text(x) + "</th>"@ } else { "<th>"@ + int_text(x) + "</th>"@ }
    }
}

/// The cell at `(x, y)` of the tilted view: the number `y·m + x − tilt·y`
/// as a span, or an empty cell below 0; row 0 and column 0 are the axes.
pub open spec fn tilt_cell(s: Semigroup, tilt: int, row: int, x: int) -> Seq<char> {
    let axis = row == 0 || x == 0;
    let n = row * (s.m as int) + x - tilt * row;
    if n < 0 {
        "<td class=\""@ + (if axis { "sg-empty tilt-axis"@ } else { "sg-empty"@ }) + "\"></td>"@
    } else {
        (if axis { "<td class=\"tilt-axis\">"@ } else { "<td>"@ }) + span_text(cell_class(s, n), n as nat, true) + "</td>"@
    }
}

/// The cells of one row of the tilted view, by column index.
pub open spec fn tilt_cells(s: Semigroup, tilt: int, row: int) -> spec_fn(int) -> Seq<char> {
    |idx: int| tilt_cell(s, tilt, row, idx - 3 * (s.m as int))
}

/// One row of the tilted view.
pub open spec fn tilt_row(s: Semigroup, tilt: int, row: int) -> Seq<char> {
    "<tr><th"@ + (if row == 0 { " class=\"tilt-axis\""@ } else { ""@ }) + ">"@ + int_text(row) + "</th>"@
        + concat_n((6 * s.m + 1) as nat, tilt_cells(s, tilt, row)) + "</tr>"@
}

/// The rows `hi − 1` down to `lo` of the tilted view.
pub open spec fn tilt_rows(s: Semigroup, tilt: int, hi: int, lo: int) -> Seq<char>
    decreases hi - lo,
{
    if hi <= lo {
        Seq::empty()
    } else {
        tilt_row(s, tilt, hi - 1) + tilt_rows(s, tilt, hi - 1, lo)
    }
}

/// The sizes for which the numbers of the tilted view fit in an `isize`.
pub open spec fn tilt_fits(s: Semigroup, tilt: int) -> bool {
    16 * (s.m * s.m + abs(tilt) * s.m + s.m + 1) <= isize::MAX
}

/// The tilted view: columns `x = −3m..=3m`, rows `y` from `3m` down to
/// `−3m`, the cell at `(x, y)` holding `y·m + x − tilt·y`.
pub open spec fn tilt_text(s: Semigroup, tilt: int) -> Seq<char> {
    "<table class=\"sg-grid tilt-grid\"><thead>"@ + "<tr><th>y\\x</th>"@
        + concat_n((6 * s.m + 1) as nat, tilt_header_cells(s)) + "</tr>"@ + "</thead><tbody>"@
        + tilt_rows(s, tilt, 3 * (s.m as int) + 1, -3 * (s.m as int)) + "</tbody></table>"@
}

/// Appends one cell of the tilted view.
fn push_tilt_cell(out: &mut String, sg: &Semigroup, tilt: i32, row: isize, x: isize)
    requires
        sg.wf(),
        tilt_fits(*sg, tilt as int),
        -3 * sg.m <= row <= 3 * sg.m,
        -3 * sg.m <= x <= 3 * sg.m,
    ensures
        final(out)@ == old(out)@ + tilt_cell(*sg, tilt as int, row as int, x as int),
{
    proof {
        lemma_tilt_bounds(*sg, tilt as int, row as int, x as int);
    }
    let axis = row == 0 || x == 0;
    let n_signed: isize = row * (sg.m as isize) + x - (tilt as isize) * row;
    if n_signed < 0 {
        out.append("<td class=\"");
        if axis {
            out.append("sg-empty tilt-axis");
        } else {
            out.append("sg-empty");
        }
        out.append("\"></td>");
        proof {
            assert(final(out)@ =~= old(out)@ + tilt_cell(*sg, tilt as int, row as int, x as int));
        }
        return;
    }
    let n = n_signed as usize;
    if axis {
        out.append("<td class=\"tilt-axis\">");
    } else {
        out.append("<td>");
    }
    push_span(out, cell_cls(n, sg), n, true);
    out.append("</td>");
    proof {
        assert(final(out)@ =~= old(out)@ + tilt_cell(*sg, tilt as int, row as int, x as int));
    }
}

/// The sizes in the tilted view stay in range.
proof fn lemma_tilt_bounds(s: Semigroup, tilt: int, row: int, x: int)
    requires
        s.wf(),
        tilt_fits(s, tilt),
        -3 * s.m <= row <= 3 * s.m,
        -3 * s.m <= x <= 3 * s.m,
    ensures
        -(isize::MAX / 2) <= row * (s.m as int) + x - tilt * row <= isize::MAX / 2,
        -(isize::MAX / 2) <= row * (s.m as int) <= isize::MAX / 2,
        -(isize::MAX / 2) <= tilt * row <= isize::MAX / 2,
        s.m <= isize::MAX / 8,
{
    let m = s.m as int;
    assert(-3 * (m * m) <= row * m <= 3 * (m * m)) by (nonlinear_arith) requires -3 * m <= row <= 3 * m, m >= 1;
    assert(abs(tilt * row) <= 3 * (abs(tilt) * m)) by (nonlinear_arith) requires -3 * m <= row <= 3 * m, m >= 1;
    assert(abs(tilt) * m >= 0) by (nonlinear_arith) requires m >= 1;
    assert(m <= m * m) by (nonlinear_arith) requires m >= 1;
}

/// Appends one row of the tilted view.
fn push_tilt_row(out: &mut String, sg: &Semigroup, tilt: i32, row: isize)
    requires
        sg.wf(),
        tilt_fits(*sg, tilt as int),
        -3 * sg.m <= row <= 3 * sg.m,
    ensures
        final(out)@ == old(out)@ + tilt_row(*sg, tilt as int, row as int),
{
    proof {
        lemma_tilt_bounds(*sg, tilt as int, row as int, 0);
    }
    if row == 0 {
        out.append("<tr><th class=\"tilt-axis\">");
    } else {
        out.append("<tr><th>");
    }
    push_int(out, row as i64);
    out.append("</th>");
    let ghost mid = out@;
    let ghost f = tilt_cells(*sg, tilt as int, row as int);
    let mi = sg.m as isize;
    let count: usize = 6 * sg.m + 1;
    let mut idx: usize = 0;
    while idx < count
        invariant
            sg.wf(),
            tilt_fits(*sg, tilt as int),
            -3 * sg.m <= row <= 3 * sg.m,
            sg.m <= isize::MAX / 8,
            mi == sg.m,
            count == 6 * sg.m + 1,
            idx <= count,
            f == tilt_cells(*sg, tilt as int, row as int),
            out@ == mid + concat_n(idx as nat, f),
        decreases count - idx,
    {
        let x: isize = idx as isize - 3 * mi;
        push_tilt_cell(out, sg, tilt, row, x);
        proof {
            assert(concat_n((idx + 1) as nat, f) == concat_n(idx as nat, f) + f(idx as int));
        }
        idx = idx + 1;
    }
    out.append("</tr>");
    proof {
        reveal_strlit("<tr><th class=\"tilt-axis\">");
        reveal_strlit("<tr><th");
        reveal_strlit(" class=\"tilt-axis\"");
        reveal_strlit(">");
        reveal_strlit("<tr><th>");
        reveal_strlit("");
        assert("<tr><th class=\"tilt-axis\">"@ =~= "<tr><th"@ + " class=\"tilt-axis\""@ + ">"@);
        assert("<tr><th>"@ =~= "<tr><th"@ + ""@ + ">"@);
        assert(final(out)@ =~= old(out)@ + tilt_row(*sg, tilt as int, row as int));
    }
}

/// The tilted grid of `sg`: the columns `x = −3m..=3m` and the rows `y`
/// from `3m` down to `−3m`, the cell at `(x, y)` holding the number
/// `y·m + x − tilt·y` (empty below 0), the row and column 0 marked as axes.
pub fn tilt_table(sg: &Semigroup, tilt: i32) -> (html: String)
    requires
        sg.wf(),
        tilt_fits(*sg, tilt as int),
    ensures
        html@ == tilt_text(*sg, tilt as int),
{
    proof {
        lemma_tilt_bounds(*sg, tilt as int, 0, 0);
    }
    let mut html = String::new();
    html.append("<table class=\"sg-grid tilt-grid\"><thead>");
    html.append("<tr><th>y\\x</th>");
    let ghost mid = html@;
    let ghost f = tilt_header_cells(*sg);
    let mi = sg.m as isize;
    let count: usize = 6 * sg.m + 1;
    let mut idx: usize = 0;
    while idx < count
        invariant
            sg.wf(),
            sg.m <= isize::MAX / 8,
            mi == sg.m,
            count == 6 * sg.m + 1,
            idx <= count,
            f == tilt_header_cells(*sg),
            html@ == mid + concat_n(idx as nat, f),
        decreases count - idx,
    {
        let x: isize = idx as isize - 3 * mi;
        if x == 0 {
            html.append("<th class=\"tilt-axis\">");
        } else {
            html.append("<th>");
        }
        push_int(&mut html, x as i64);
        html.append("</th>");
        proof {
            assert(concat_n((idx + 1) as nat, f) == concat_n(idx as nat, f) + f(idx as int));
            assert(html@ =~= mid + concat_n((idx + 1) as nat, f));
        }
        idx = idx + 1;
    }
    html.append("</tr>");
    html.append("</thead><tbody>");
    let end_row: isize = 3 * mi + 1;
    let start_row: isize = -3 * mi;
    let ghost top = html@;
    let mut row: isize = end_row;
    while row > start_row
        invariant
            sg.wf(),
            tilt_fits(*sg, tilt as int),
            sg.m <= isize::MAX / 8,
            start_row <= row <= end_row,
            end_row == 3 * sg.m + 1,
            start_row == -3 * sg.m,
            top + tilt_rows(*sg, tilt as int, end_row as int, start_row as int)
                == html@ + tilt_rows(*sg, tilt as int, row as int, start_row as int),
        decreases row - start_row,
    {
        let ghost before = html@;
        push_tilt_row(&mut html, sg, tilt, row - 1);
        proof {
            assert(tilt_rows(*sg, tilt as int, row as int, start_row as int)
                == tilt_row(*sg, tilt as int, row - 1) + tilt_rows(*sg, tilt as int, row - 1, start_row as int));
            assert(before + tilt_rows(*sg, tilt as int, row as int, start_row as int)
                =~= html@ + tilt_rows(*sg, tilt as int, row - 1, start_row as int));
        }
        row = row - 1;
    }
    html.append("</tbody></table>");
    proof {
        assert(tilt_rows(*sg, tilt as int, start_row as int, start_row as int) == Seq::<char>::empty());
        assert(html@ =~= tilt_text(*sg, tilt as int));
    }
    html
}

/// The class of an Apéry element in a difference: minimal generators stand out.
pub open spec fn ap_class(s: Semigroup, v: int) -> Seq<char> {
    if seq_has(s.gen_set@, v) { "sg-gen"@ } else { "sg-apery"@ }
}

/// `w_i − w_j` for the pair with flat index `k = i·m + j`.
pub open spec fn diff_piece(s: Semigroup, k: int) -> Seq<char> {
    let m = s.m as int;
    let wi = s.apery_set@[k / m] as int;
    let wj = s.apery_set@[k % m] as int;
    span_text(ap_class(s, wi), wi as nat, false) + "\u{2212}"@ + span_text(ap_class(s, wj), wj as nat, false)
}

/// The pair with flat index `k = i·m + j` shows `n` as `w_i − w_j` with
/// `i, j ≥ 1`, `i ≠ j` and `w_i > w_j`.
pub open spec fn diff_hit(s: Semigroup, n: int, k: int) -> bool {
    let m = s.m as int;
    let i = k / m;
    let j = k % m;
    let wi = s.apery_set@[i] as int;
    let wj = s.apery_set@[j] as int;
    i >= 1 && j >= 1 && i != j && wi > wj && wi - wj == n
}

/// Appends a piece after a space when something came before.
pub open spec fn join_piece(acc: Seq<char>, c: bool, piece: Seq<char>) -> Seq<char> {
    if !c { acc } else if acc.len() == 0 { piece } else { acc + " "@ + piece }
}

/// The representations of `n` as differences of Apéry elements among the
/// first `k` pairs, in the order of `(i, j)`, separated by spaces.
pub open spec fn diff_text(s: Semigroup, n: int, k: nat) -> Seq<char>
    decreases k,
{
    if k == 0 {
        Seq::empty()
    } else {
        join_piece(diff_text(s, n, (k - 1) as nat), diff_hit(s, n, k - 1), diff_piece(s, k - 1))
    }
}

/// The CSS class of the label [`Semigroup::classify`] gives `n`:
/// `cl-zero` for zero; `cl-in` for the multiplicity, the Frobenius number,
/// the conductor, a minimal generator and an Apéry element; `cl-reflect`
/// for a reflected gap; `cl-gap` for the other labels (other elements,
/// labelled `S`, and gaps).
pub open spec fn classify_class(s: Semigroup, n: int) -> Seq<char> {
    if n == 0 {
        "cl-zero"@
    } else if n == s.m || n == s.f || n == s.f + 1 || seq_has(s.gen_set@, n) || s.apery_set@[n % (s.m as int)] == n {
        "cl-in"@
    } else if s.contains(n) {
        "cl-gap"@
    } else if n < s.f && !s.contains(s.f - n) {
        "cl-reflect"@
    } else {
        "cl-gap"@
    }
}

/// The row of `n` in the classification table.
pub open spec fn classify_rows(s: Semigroup) -> spec_fn(int) -> Seq<char> {
    |n: int| "<tr><td class=\"cl-n\">"@ + span_text(cell_class(s, n), n as nat, true) + "</td><td class=\""@
        + classify_class(s, n) + "\">"@ + classify_spec(s, n) + "</td><td class=\"cl-diff\">"@
        + diff_text(s, n, (s.m * s.m) as nat) + "</td></tr>"@
}

/// The classification table: one row for each `n` in `0..=f + m`.
pub open spec fn classify_text(s: Semigroup) -> Seq<char> {
    "<table class=\"classify-table\"><thead><tr><th>n</th><th>class</th><th>Diff</th></tr></thead><tbody>"@
        + concat_n((s.f + s.m + 1) as nat, classify_rows(s)) + "</tbody></table>"@
}

/// The CSS class of the label of `n`.
fn classify_cls(sg: &Semigroup, n: usize) -> (c: &'static str)
    requires
        sg.wf(),
    ensures
        c@ == classify_class(*sg, n as int),
{
    proof {
        assert(sg.f + 1 <= usize::MAX) by (nonlinear_arith)
            requires 4 * (sg.m * (sg.f + sg.m)) <= usize::MAX, sg.m >= 1;
    }
    if n == 0 {
        "cl-zero"
    } else if n == sg.m || n == sg.f || n == sg.f + 1 || vec_contains(&sg.gen_set, n) || sg.apery_set[n % sg.m] == n {
        "cl-in"
    } else if sg.element(n) {
        "cl-gap"
    } else if n < sg.f && !sg.element(sg.f - n) {
        "cl-reflect"
    } else {
        "cl-gap"
    }
}

/// Appends the differences of Apéry elements equal to `n`.
fn push_diffs(out: &mut String, sg: &Semigroup, n: usize)
    requires
        sg.wf(),
    ensures
        final(out)@ == old(out)@ + diff_text(*sg, n as int, (sg.m * sg.m) as nat),
{
    let m = sg.m;
    proof {
        assert(m * m <= usize::MAX) by (nonlinear_arith)
            requires 4 * (sg.m * (sg.f + sg.m)) <= usize::MAX, sg.m >= 1, m == sg.m;
    }
    let mut acc = String::new();
    let mut any = false;
    let mut i: usize = 0;
    while i < m
        invariant
            sg.wf(),
            m == sg.m,
            m * m <= usize::MAX,
            i <= m,
            acc@ == diff_text(*sg, n as int, (i * m) as nat),
            any == (acc@.len() > 0),
        decreases m - i,
    {
        let mut j: usize = 0;
        while j < m
            invariant
                sg.wf(),
                m == sg.m,
                m * m <= usize::MAX,
                i < m,
                j <= m,
                acc@ == diff_text(*sg, n as int, (i * m + j) as nat),
                any == (acc@.len() > 0),
            decreases m - j,
        {
            let ghost k = i * m + j;
            proof {
                assert(k / (m as int) == i && k % (m as int) == j) by {
                    vstd::arithmetic::div_mod::lemma_fundamental_div_mod_converse(k, m as int, i as int, j as int);
                }
                assert(i * m + j < m * m) by (nonlinear_arith) requires i < m, j < m;
            }
            let wi = sg.apery_set[i];
            let wj = sg.apery_set[j];
            if i >= 1 && j >= 1 && i != j && wi > wj && wi - wj == n {
                let ghost before = acc@;
                if any {
                    acc.append(" ");
                }
                let ci = if vec_contains(&sg.gen_set, wi) { "sg-gen" } else { "sg-apery" };
                let cj = if vec_contains(&sg.gen_set, wj) { "sg-gen" } else { "sg-apery" };
                push_span(&mut acc, ci, wi, false);
                acc.append("\u{2212}");
                push_span(&mut acc, cj, wj, false);
                any = true;
                proof {
                    reveal_strlit(" ");
                    assert(acc@ =~= join_piece(before, true, diff_piece(*sg, k)));
                }
            }
            proof {
                assert(diff_text(*sg, n as int, (k + 1) as nat)
                    == join_piece(diff_text(*sg, n as int, k as nat), diff_hit(*sg, n as int, k), diff_piece(*sg, k)));
            }
            j = j + 1;
        }
        proof {
            assert(i * m + m == (i + 1) * m) by (nonlinear_arith);
        }
        i = i + 1;
    }
    out.append(acc.as_str());
}

/// The classification table of `sg`: for each `n` from 0 to `f + m`, the
/// number as a span with its class, its label from
/// [`Semigroup::classify`] with the class of that label, and every way of
/// writing `n` as `w_i − w_j` with `i, j ≥ 1`, `i ≠ j`.
#[verifier::spinoff_prover]
pub fn classify_table(sg: &Semigroup) -> (html: String)
    requires
        sg.wf(),
    ensures
        html@ == classify_text(*sg),
{
    proof {
        assert(sg.f + sg.m + 1 <= usize::MAX) by (nonlinear_arith)
            requires 4 * (sg.m * (sg.f + sg.m)) <= usize::MAX, sg.m >= 1;
    }
    let mut out = String::new();
    out.append("<table class=\"classify-table\"><thead><tr><th>n</th><th>class</th><th>Diff</th></tr></thead><tbody>");
    let ghost mid = out@;
    let ghost f = classify_rows(*sg);
    let top: usize = sg.f + sg.m + 1;
    let mut n: usize = 0;
    while n < top
        invariant
            sg.wf(),
            top == sg.f + sg.m + 1,
            n <= top,
            f == classify_rows(*sg),
            out@ == mid + concat_n(n as nat, f),
        decreases top - n,
    {
        let ghost before = out@;
        out.append("<tr><td class=\"cl-n\">");
        push_span(&mut out, cell_cls(n, sg), n, true);
        out.append("</td><td class=\"");
        out.append(classify_cls(sg, n));
        out.append("\">");
        out.append(sg.classify(n));
        out.append("</td><td class=\"cl-diff\">");
        push_diffs(&mut out, sg, n);
        out.append("</td></tr>");
        proof {
            assert(out@ =~= before + f(n as int));
            assert(concat_n((n + 1) as nat, f) == concat_n(n as nat, f) + f(n as int));
        }
        n = n + 1;
    }
    out.append("</tbody></table>");
    proof {
        assert(out@ =~= classify_text(*sg));
    }
    out
}

/// The row of `n` in the earlier classification table, whose number is
/// drawn with the classes of [`get_cls`].
pub open spec fn js_classify_rows(s: Semigroup) -> spec_fn(int) -> Seq<char> {
    |n: int| "<tr><td class=\"cl-n\">"@ + span_text(get_cls_text(s, n, false), n as nat, true) + "</td><td class=\""@
        + classify_class(s, n) + "\">"@ + classify_spec(s, n) + "</td><td class=\"cl-diff\">"@
        + diff_text(s, n, (s.m * s.m) as nat) + "</td></tr>"@
}

/// The earlier classification table: as [`classify_text`], with the
/// classes of [`get_cls`] on the numbers.
pub open spec fn js_classify_text(s: Semigroup) -> Seq<char> {
    "<table class=\"classify-table\"><thead><tr><th>n</th><th>class</th><th>Diff</th></tr></thead><tbody>"@
        + concat_n((s.f + s.m + 1) as nat, js_classify_rows(s)) + "</tbody></table>"@
}

/// The earlier classification table of `sg` (see [`js_classify_text`]).
pub fn js_classify_table(sg: &Semigroup) -> (html: String)
    requires
        sg.wf(),
    ensures
        html@ == js_classify_text(*sg),
{
    proof {
        assert(sg.f + sg.m + 1 <= usize::MAX) by (nonlinear_arith)
            requires 4 * (sg.m * (sg.f + sg.m)) <= usize::MAX, sg.m >= 1;
    }
    let mut out = String::new();
    out.append("<table class=\"classify-table\"><thead><tr><th>n</th><th>class</th><th>Diff</th></tr></thead><tbody>");
    let ghost mid = out@;
    let ghost f = js_classify_rows(*sg);
    let top: usize = sg.f + sg.m + 1;
    let mut n: usize = 0;
    while n < top
        invariant
            sg.wf(),
            top == sg.f + sg.m + 1,
            n <= top,
            f == js_classify_rows(*sg),
            out@ == mid + concat_n(n as nat, f),
        decreases top - n,
    {
        let ghost before = out@;
        out.append("<tr><td class=\"cl-n\">");
        push_span(&mut out, get_cls(n, false, sg), n, true);
        out.append("</td><td class=\"");
        out.append(classify_cls(sg, n));
        out.append("\">");
        out.append(sg.classify(n));
        out.append("</td><td class=\"cl-diff\">");
        push_diffs(&mut out, sg, n);
        out.append("</td></tr>");
        proof {
            assert(out@ =~= before + f(n as int));
            assert(concat_n((n + 1) as nat, f) == concat_n(n as nat, f) + f(n as int));
        }
        n = n + 1;
    }
    out.append("</tbody></table>");
    proof {
        assert(out@ =~= js_classify_text(*sg));
    }
    out
}

} // verus!
