//! HTML and text fragments for the views of a semigroup: status glyphs,
//! number spans, the one-line test-case record, and the strata grid.
use vstd::prelude::*;
use vstd::string::StringExecFns;
use crate::generated::seq_has;
use crate::inspect::vec_contains;
use crate::semigroup::Semigroup;
use crate::strata::dec;
use crate::text::{bool_text, push_bool, push_spaced_nat, push_usize, spaced_nat};

verus! {

/// The check mark for `true`, the prohibition sign for `false`.
pub open spec fn glyph_text(b: bool) -> Seq<char> {
    if b { seq!['\u{2705}'] } else { seq!['\u{1F6AB}'] }
}

/// The status glyph of a boolean property.
pub fn glyph(b: bool) -> (s: &'static str)
    ensures
        s@ == glyph_text(b),
{
    proof {
        reveal_strlit("\u{2705}");
        reveal_strlit("\u{1F6AB}");
    }
    if b {
        "\u{2705}"
    } else {
        "\u{1F6AB}"
    }
}

/// The CSS class of a Kunz-coefficient cell: zeros are marked.
pub fn kunz_cls(n: usize) -> (s: &'static str)
    ensures
        s@ == if n == 0 { "kunz-zero"@ } else { ""@ },
{
    if n == 0 {
        "kunz-zero"
    } else {
        ""
    }
}

/// `<span class="cls">n</span>`, with a `data-n="n"` attribute when `data_n`.
pub open spec fn span_text(cls: Seq<char>, n: nat, data_n: bool) -> Seq<char> {
    "<span class=\""@ + cls + (if data_n { "\" data-n=\""@ + dec(n) } else { Seq::empty() }) + "\">"@ + dec(n)
        + "</span>"@
}

/// Appends the span of `n` with class `cls`.
pub fn push_span(out: &mut String, cls: &str, n: usize, data_n: bool)
    ensures
        final(out)@ == old(out)@ + span_text(cls@, n as nat, data_n),
{
    out.append("<span class=\"");
    out.append(cls);
    if data_n {
        out.append("\" data-n=\"");
        push_usize(out, n);
    }
    out.append("\">");
    push_usize(out, n);
    out.append("</span>");
    proof {
        assert(final(out)@ =~= old(out)@ + span_text(cls@, n as nat, data_n));
    }
}

/// The span of `n` with CSS class `cls`; with `data_n` it also carries
/// `data-n`, which the grid uses to toggle `n`.
pub fn span(cls: &str, n: usize, data_n: bool) -> (s: String)
    ensures
        s@ == span_text(cls@, n as nat, data_n),
{
    let mut s = String::new();
    push_span(&mut s, cls, n, data_n);
    s
}

/// One record of the test fixtures: `gens;e;f;m;g;σ;symmetric;apery;pf;t`,
/// lists space-separated, the Apéry set by residue and the pseudo-Frobenius
/// numbers in increasing order.
pub open spec fn testcase_text(s: Semigroup) -> Seq<char> {
    spaced_nat(s.gen_set@) + seq![';'] + dec(s.e as nat) + seq![';'] + dec(s.f as nat) + seq![';']
        + dec(s.m as nat) + seq![';'] + dec(s.g as nat) + seq![';'] + dec(s.sigma as nat) + seq![';']
        + bool_text(s.is_symmetric) + seq![';'] + spaced_nat(s.apery_set@) + seq![';']
        + spaced_nat(s.pf_set@) + seq![';'] + dec(s.t as nat)
}

/// The test-fixture record of a semigroup.
pub fn testcase_csv(sg: &Semigroup) -> (s: String)
    ensures
        s@ == testcase_text(*sg),
{
    let mut s = String::new();
    push_spaced_nat(&mut s, &sg.gen_set);
    s.append(";");
    push_usize(&mut s, sg.e);
    s.append(";");
    push_usize(&mut s, sg.f);
    s.append(";");
    push_usize(&mut s, sg.m);
    s.append(";");
    push_usize(&mut s, sg.g);
    s.append(";");
    push_usize(&mut s, sg.sigma);
    s.append(";");
    push_bool(&mut s, sg.is_symmetric);
    s.append(";");
    push_spaced_nat(&mut s, &sg.apery_set);
    s.append(";");
    push_spaced_nat(&mut s, &sg.pf_set);
    s.append(";");
    push_usize(&mut s, sg.t);
    proof {
        reveal_strlit(";");
        assert(s@ =~= testcase_text(*sg));
    }
    s
}

/// `<th>1</th>…<th>n</th>` for the columns `1..=k`.
pub open spec fn strata_header(k: nat) -> Seq<char>
    decreases k,
{
    if k == 0 {
        Seq::empty()
    } else {
        strata_header((k - 1) as nat) + "<th>"@ + dec(k) + "</th>"@
    }
}

/// `v` belongs to the row.
pub open spec fn row_has(row: Seq<usize>, v: int) -> bool {
    exists|j: int| 0 <= j < row.len() && row[j] == v
}

/// The cell of value `v` in level `l`: class `strata-in` with the value as
/// label when `v` is in the set, else `strata-out` and no label.
pub open spec fn strata_cell(l: nat, row: Seq<usize>, v: nat) -> Seq<char> {
    let inside = row_has(row, v as int);
    "<td class=\""@ + (if inside { "strata-in"@ } else { "strata-out"@ }) + "\" data-l=\""@ + dec(l)
        + "\" data-v=\""@ + dec(v) + "\">"@ + (if inside { dec(v) } else { Seq::empty() }) + "</td>"@
}

/// The cells of level `l` for the values `1..=k`.
pub open spec fn strata_cells(l: nat, row: Seq<usize>, k: nat) -> Seq<char>
    decreases k,
{
    if k == 0 {
        Seq::empty()
    } else {
        strata_cells(l, row, (k - 1) as nat) + strata_cell(l, row, k)
    }
}

/// The table row of level `l`.
pub open spec fn strata_row(l: nat, row: Seq<usize>, n: nat) -> Seq<char> {
    "<tr><th>"@ + dec(l) + "</th>"@ + strata_cells(l, row, n) + "</tr>"@
}

/// The rows of the levels `k − 1, k − 2, …, 0`, top-down.
pub open spec fn strata_rows(chain: Seq<Seq<usize>>, k: nat, n: nat) -> Seq<char>
    decreases k,
{
    if k == 0 {
        Seq::empty()
    } else {
        strata_row((k - 1) as nat, chain[k - 1], n) + strata_rows(chain, (k - 1) as nat, n)
    }
}

/// The strata grid: a header of the columns `1..=n`, the levels from the
/// top one down to 0, and the header again as a footer row.
pub open spec fn strata_table_text(chain: Seq<Seq<usize>>, n: nat) -> Seq<char> {
    "<table class=\"strata-grid\"><thead>"@ + "<tr><th></th>"@ + strata_header(n) + "</tr>"@
        + "</thead><tbody>"@ + strata_rows(chain, chain.len(), n)
        + "<tr class=\"strata-foot\"><th></th>"@ + strata_header(n) + "</tr>"@ + "</tbody></table>"@
}

/// Appends `<th>1</th>…<th>n</th>`.
fn push_strata_header(out: &mut String, n: usize)
    ensures
        final(out)@ == old(out)@ + strata_header(n as nat),
{
    let ghost start = out@;
    let mut v: usize = 0;
    while v < n
        invariant
            v <= n,
            out@ == start + strata_header(v as nat),
        decreases n - v,
    {
        out.append("<th>");
        push_usize(out, v + 1);
        out.append("</th>");
        proof {
            assert(out@ =~= start + strata_header((v + 1) as nat));
        }
        v = v + 1;
    }
}

/// Whether `v` is in the row.
fn row_contains(row: &Vec<usize>, v: usize) -> (b: bool)
    ensures
        b == row_has(row@, v as int),
{
    let mut j: usize = 0;
    while j < row.len()
        invariant
            j <= row@.len(),
            forall|i: int| 0 <= i < j ==> row@[i] != v,
        decreases row@.len() - j,
    {
        if row[j] == v {
            return true;
        }
        j = j + 1;
    }
    false
}

/// Appends the cell of value `v` in level `l`.
fn push_strata_cell(out: &mut String, l: usize, row: &Vec<usize>, v: usize)
    ensures
        final(out)@ == old(out)@ + strata_cell(l as nat, row@, v as nat),
{
    let inside = row_contains(row, v);
    out.append("<td class=\"");
    if inside {
        out.append("strata-in");
    } else {
        out.append("strata-out");
    }
    let ghost a = out@;
    out.append("\" data-l=\"");
    push_usize(out, l);
    out.append("\" data-v=\"");
    push_usize(out, v);
    out.append("\">");
    let ghost b = out@;
    if inside {
        push_usize(out, v);
    }
    out.append("</td>");
    proof {
        assert(b =~= a + "\" data-l=\""@ + dec(l as nat) + "\" data-v=\""@ + dec(v as nat) + "\">"@);
        assert(final(out)@ =~= old(out)@ + strata_cell(l as nat, row@, v as nat));
    }
}

/// Appends the row of level `l`.
fn push_strata_row(out: &mut String, l: usize, row: &Vec<usize>, n: usize)
    ensures
        final(out)@ == old(out)@ + strata_row(l as nat, row@, n as nat),
{
    let ghost start = out@;
    out.append("<tr><th>");
    push_usize(out, l);
    out.append("</th>");
    let ghost mid = out@;
    let mut v: usize = 0;
    while v < n
        invariant
            v <= n,
            out@ == mid + strata_cells(l as nat, row@, v as nat),
        decreases n - v,
    {
        let val = v + 1;
        push_strata_cell(out, l, row, val);
        proof {
            assert(out@ =~= mid + strata_cells(l as nat, row@, val as nat));
        }
        v = v + 1;
    }
    out.append("</tr>");
    proof {
        assert(final(out)@ =~= start + strata_row(l as nat, row@, n as nat));
    }
}

/// The views of the levels of a chain.
pub open spec fn levels(chain: Seq<Vec<usize>>) -> Seq<Seq<usize>> {
    Seq::new(chain.len(), |i: int| chain[i]@)
}

/// The strata grid of a chain with `n` columns: a header row `1..=n`, one
/// row per level from the largest set at the top down to level 0, cells
/// `strata-in` (labelled with the value) or `strata-out`, each with its
/// level and value as `data-l` and `data-v`, and the header repeated as a
/// `strata-foot` row.
pub fn strata_table(chain: &[Vec<usize>], n: usize) -> (html: String)
    ensures
        html@ == strata_table_text(levels(chain@), n as nat),
{
    let mut h = String::new();
    h.append("<table class=\"strata-grid\"><thead>");
    h.append("<tr><th></th>");
    push_strata_header(&mut h, n);
    h.append("</tr>");
    h.append("</thead><tbody>");
    let ghost mid = h@;
    let mut k: usize = chain.len();
    proof {
        assert(strata_rows(levels(chain@), chain@.len(), n as nat) =~= strata_rows(levels(chain@), chain@.len(), n as nat));
    }
    while k > 0
        invariant
            k <= chain@.len(),
            mid + strata_rows(levels(chain@), chain@.len(), n as nat)
                == h@ + strata_rows(levels(chain@), k as nat, n as nat),
        decreases k,
    {
        let ghost before = h@;
        push_strata_row(&mut h, k - 1, &chain[k - 1], n);
        proof {
            let lv = levels(chain@);
            assert(lv[k - 1] == chain@[k - 1]@);
            assert(strata_rows(lv, k as nat, n as nat)
                == strata_row((k - 1) as nat, lv[k - 1], n as nat) + strata_rows(lv, (k - 1) as nat, n as nat));
            assert(before + strata_rows(lv, k as nat, n as nat) =~= h@ + strata_rows(lv, (k - 1) as nat, n as nat));
        }
        k = k - 1;
    }
    h.append("<tr class=\"strata-foot\"><th></th>");
    push_strata_header(&mut h, n);
    h.append("</tr>");
    h.append("</tbody></table>");
    proof {
        assert(h@ =~= strata_table_text(levels(chain@), n as nat));
    }
    h
}

/// The CSS class of the number `n` in the views of `s`: beyond the
/// interesting range, the Frobenius number, a minimal generator, an Apéry
/// element, another element, or a gap that is pseudo-Frobenius and/or
/// reflected, or another gap.
pub open spec fn cell_class(s: Semigroup, n: int) -> Seq<char> {
    let m = s.m as int;
    let f = s.f as int;
    let w = s.apery_set@[n % m] as int;
    let refl = 0 <= n < f && !s.contains(n) && !s.contains(f - n);
    let pf = seq_has(s.pf_set@, n);
    if n > f + m || (n > f && n != w) {
        "sg-large"@
    } else if n == f {
        "sg-frob"@
    } else if seq_has(s.gen_set@, n) {
        "sg-gen"@
    } else if n == w {
        "sg-apery"@
    } else if n >= w {
        "sg-in"@
    } else if pf && refl {
        "sg-pf-blob"@
    } else if pf {
        "sg-pf"@
    } else if refl {
        "sg-blob"@
    } else {
        "sg-out"@
    }
}

/// The class of a cell in the earlier views: with `kunz`, a Kunz
/// coefficient (zeros marked); otherwise the number `n` classified like
/// [`cell_class`] except that numbers in `(f, f + m]` are not singled out.
pub open spec fn get_cls_text(s: Semigroup, n: int, kunz: bool) -> Seq<char> {
    let m = s.m as int;
    let f = s.f as int;
    let w = s.apery_set@[n % m] as int;
    let refl = 0 <= n < f && !s.contains(n) && !s.contains(f - n);
    let pf = seq_has(s.pf_set@, n);
    if kunz {
        if n == 0 {
            "kunz-zero"@
        } else {
            ""@
        }
    } else if n > f + m {
        "sg-large"@
    } else if n == f {
        "sg-frob"@
    } else if seq_has(s.gen_set@, n) {
        "sg-gen"@
    } else if n == w {
        "sg-apery"@
    } else if n >= w {
        "sg-in"@
    } else if pf && refl {
        "sg-pf-blob"@
    } else if pf {
        "sg-pf"@
    } else if refl {
        "sg-blob"@
    } else {
        "sg-out"@
    }
}

/// The class of a cell in the earlier views (see [`get_cls_text`]).
pub fn get_cls(n: usize, kunz: bool, sg: &Semigroup) -> (c: &'static str)
    requires
        sg.wf(),
    ensures
        c@ == get_cls_text(*sg, n as int, kunz),
{
    if kunz {
        return if n == 0 {
            "kunz-zero"
        } else {
            ""
        };
    }
    let w = sg.apery_set[n % sg.m];
    proof {
        assert(sg.f + sg.m <= usize::MAX) by (nonlinear_arith)
            requires 4 * (sg.m * (sg.f + sg.m)) <= usize::MAX, sg.m >= 1, sg.f >= 0;
    }
    if n > sg.f + sg.m {
        "sg-large"
    } else if n == sg.f {
        "sg-frob"
    } else if vec_contains(&sg.gen_set, n) {
        "sg-gen"
    } else if n == w {
        "sg-apery"
    } else if n >= w {
        "sg-in"
    } else {
        let pf = vec_contains(&sg.pf_set, n);
        let refl = n < sg.f && sg.is_reflected_gap(n);
        if pf && refl {
            "sg-pf-blob"
        } else if pf {
            "sg-pf"
        } else if refl {
            "sg-blob"
        } else {
            "sg-out"
        }
    }
}

/// The CSS class of the number `n` in the views of `sg`.
pub fn cell_cls(n: usize, sg: &Semigroup) -> (c: &'static str)
    requires
        sg.wf(),
    ensures
        c@ == cell_class(*sg, n as int),
{
    let w = sg.apery_set[n % sg.m];
    proof {
        assert(sg.f + sg.m <= usize::MAX) by (nonlinear_arith)
            requires 4 * (sg.m * (sg.f + sg.m)) <= usize::MAX, sg.m >= 1, sg.f >= 0;
    }
    if n > sg.f + sg.m || (n > sg.f && n != w) {
        "sg-large"
    } else if n == sg.f {
        "sg-frob"
    } else if vec_contains(&sg.gen_set, n) {
        "sg-gen"
    } else if n == w {
        "sg-apery"
    } else if n >= w {
        "sg-in"
    } else {
        let pf = vec_contains(&sg.pf_set, n);
        let refl = n < sg.f && sg.is_reflected_gap(n);
        if pf && refl {
            "sg-pf-blob"
        } else if pf {
            "sg-pf"
        } else if refl {
            "sg-blob"
        } else {
            "sg-out"
        }
    }
}

/// Spans of class `cls` for the items, separated by `, `.
pub open spec fn spans_text(items: Seq<usize>, cls: Seq<char>) -> Seq<char>
    decreases items.len(),
{
    if items.len() == 0 {
        Seq::empty()
    } else if items.len() == 1 {
        span_text(cls, items[0] as nat, false)
    } else {
        spans_text(items.drop_last(), cls) + ", "@ + span_text(cls, items.last() as nat, false)
    }
}

/// Appends the spans of the items, separated by `, `.
fn push_spans(out: &mut String, items: &Vec<usize>, cls: &str)
    ensures
        final(out)@ == old(out)@ + spans_text(items@, cls@),
{
    let ghost start = out@;
    let mut i: usize = 0;
    proof {
        assert(spans_text(items@.subrange(0, 0), cls@) == Seq::<char>::empty());
        assert(out@ =~= start + spans_text(items@.subrange(0, 0), cls@));
    }
    while i < items.len()
        invariant
            i <= items@.len(),
            out@ == start + spans_text(items@.subrange(0, i as int), cls@),
        decreases items@.len() - i,
    {
        if i > 0 {
            out.append(", ");
        }
        push_span(out, cls, items[i], false);
        proof {
            let t = items@.subrange(0, i + 1);
            assert(t.drop_last() =~= items@.subrange(0, i as int));
            assert(t.last() == items@[i as int]);
            assert(out@ =~= start + spans_text(t, cls@));
        }
        i = i + 1;
    }
    proof {
        assert(items@.subrange(0, items@.len() as int) =~= items@);
    }
}

/// A cell with a count that reveals the listed items on hover.
pub open spec fn popup_text(count: nat, content: Seq<char>) -> Seq<char> {
    "<td class=\"left has-popup\"><span class=\"popup-count\">"@ + dec(count) + "</span><div class=\"popup\">"@ + content
        + "</div></td>"@
}

/// Some minimal generator equals `f + m` or lies in `(f − m, f)`.
pub open spec fn descent_image(s: Semigroup) -> bool {
    exists|k: int| 0 <= k < s.gen_set@.len() && {
        let g = #[trigger] s.gen_set@[k];
        g == s.f + s.m || (g < s.f && g + s.m > s.f)
    }
}

/// The cells of the summary row: `m`, `f`, `e` (hover: the generators),
/// `g`, `σ`, `r`, `ra`, `fg`, `t` (hover: the pseudo-Frobenius numbers),
/// symmetric, descent image, then the Wilf quotient and `1/e` as given.
pub open spec fn shortprop_cells_text(s: Semigroup, wilf: Seq<char>, inv_e: Seq<char>) -> Seq<char> {
    "<td>"@ + dec(s.m as nat) + "</td><td>"@ + spans_text(seq![s.f], "sg-frob"@) + "</td>"@
        + popup_text(s.e as nat, spans_text(s.gen_set@, "sg-gen"@))
        + "<td>"@ + dec(s.g as nat) + "</td><td>"@ + dec(s.sigma as nat) + "</td><td>"@ + dec(s.r as nat) + "</td><td>"@
        + dec(s.ra as nat) + "</td><td>"@ + dec(s.fg as nat) + "</td>"@
        + popup_text(s.t as nat, spans_text(s.pf_set@, "sg-pf"@))
        + "<td>"@ + glyph_text(s.is_symmetric) + "</td><td>"@ + glyph_text(descent_image(s)) + "</td><td>"@ + wilf
        + "</td><td>"@ + inv_e + "</td>"@
}

/// The cells of the summary row of `sg`; `wilf` and `inv_e` are the Wilf
/// quotient `σ/(f + 1)` and `1/e`, already written with four decimals.
pub fn shortprop_cells(sg: &Semigroup, wilf: &str, inv_e: &str) -> (html: String)
    requires
        sg.wf(),
    ensures
        html@ == shortprop_cells_text(*sg, wilf@, inv_e@),
{
    let mut out = String::new();
    out.append("<td>");
    push_usize(&mut out, sg.m);
    out.append("</td><td>");
    let mut fv: Vec<usize> = Vec::new();
    fv.push(sg.f);
    push_spans(&mut out, &fv, "sg-frob");
    out.append("</td>");
    let ghost a = out@;
    out.append("<td class=\"left has-popup\"><span class=\"popup-count\">");
    push_usize(&mut out, sg.e);
    out.append("</span><div class=\"popup\">");
    push_spans(&mut out, &sg.gen_set, "sg-gen");
    out.append("</div></td>");
    proof {
        assert(out@ =~= a + popup_text(sg.e as nat, spans_text(sg.gen_set@, "sg-gen"@)));
    }
    out.append("<td>");
    push_usize(&mut out, sg.g);
    out.append("</td><td>");
    push_usize(&mut out, sg.sigma);
    out.append("</td><td>");
    push_usize(&mut out, sg.r);
    out.append("</td><td>");
    push_usize(&mut out, sg.ra);
    out.append("</td><td>");
    push_usize(&mut out, sg.fg);
    out.append("</td>");
    let ghost b = out@;
    out.append("<td class=\"left has-popup\"><span class=\"popup-count\">");
    push_usize(&mut out, sg.t);
    out.append("</span><div class=\"popup\">");
    push_spans(&mut out, &sg.pf_set, "sg-pf");
    out.append("</div></td>");
    proof {
        assert(out@ =~= b + popup_text(sg.t as nat, spans_text(sg.pf_set@, "sg-pf"@)));
    }
    out.append("<td>");
    out.append(glyph(sg.is_symmetric));
    out.append("</td><td>");
    out.append(glyph(sg.is_descent_image()));
    out.append("</td><td>");
    out.append(wilf);
    out.append("</td><td>");
    out.append(inv_e);
    out.append("</td>");
    proof {
        assert(fv@ =~= seq![sg.f]);
        assert(out@ =~= shortprop_cells_text(*sg, wilf@, inv_e@));
    }
    out
}

/// The header of the summary table.
pub open spec fn shortprop_head() -> Seq<char> {
    "<table class=\"shortprop-table\"><thead><tr><th title=\"Multiplicity: smallest positive element\">m</th><th title=\"Frobenius number: largest gap\">f</th><th title=\"Embedding dimension: number of minimal generators (hover the cell to list them)\">e</th><th title=\"Genus: number of gaps\">g</th><th title=\"Sporadic elements: elements of S below the conductor f+1\">\u{03C3}</th><th title=\"Reflected gaps: gaps n where f\u{2212}n is also a gap\">r</th><th title=\"Reflected Ap\u{00E9}ry: Ap\u{00E9}ry elements w where w\u{2212}m is a reflected gap\">ra</th><th title=\"Fundamental gaps: gaps not expressible as sum of two smaller gaps\">fg</th><th title=\"Type: number of pseudo-Frobenius numbers (hover the cell to list them)\">t</th><th title=\"Symmetric: t=1 and g=(f+1)/2\">Sym</th><th title=\"Descent image: \u{2203} T with T.descent()=S; equivalently a min-gen lies in (f\u{2212}m, f) or at f+m\">di</th><th title=\"Wilf quotient: \u{03C3}/(f+1) \u{2265} 1/e (conjecture)\">Wilf</th><th title=\"Wilf conjecture lower bound: 1/e\">1/e</th></tr></thead><tbody><tr>"@
}

/// The summary table of `sg`: a header row with explanations and the row
/// of [`shortprop_cells`].
pub fn shortprop(sg: &Semigroup, wilf: &str, inv_e: &str) -> (html: String)
    requires
        sg.wf(),
    ensures
        html@ == shortprop_head() + shortprop_cells_text(*sg, wilf@, inv_e@) + "</tr></tbody></table>"@,
{
    let mut out = String::new();
    out.append("<table class=\"shortprop-table\"><thead><tr><th title=\"Multiplicity: smallest positive element\">m</th><th title=\"Frobenius number: largest gap\">f</th><th title=\"Embedding dimension: number of minimal generators (hover the cell to list them)\">e</th><th title=\"Genus: number of gaps\">g</th><th title=\"Sporadic elements: elements of S below the conductor f+1\">\u{03C3}</th><th title=\"Reflected gaps: gaps n where f\u{2212}n is also a gap\">r</th><th title=\"Reflected Ap\u{00E9}ry: Ap\u{00E9}ry elements w where w\u{2212}m is a reflected gap\">ra</th><th title=\"Fundamental gaps: gaps not expressible as sum of two smaller gaps\">fg</th><th title=\"Type: number of pseudo-Frobenius numbers (hover the cell to list them)\">t</th><th title=\"Symmetric: t=1 and g=(f+1)/2\">Sym</th><th title=\"Descent image: \u{2203} T with T.descent()=S; equivalently a min-gen lies in (f\u{2212}m, f) or at f+m\">di</th><th title=\"Wilf quotient: \u{03C3}/(f+1) \u{2265} 1/e (conjecture)\">Wilf</th><th title=\"Wilf conjecture lower bound: 1/e\">1/e</th></tr></thead><tbody><tr>");
    let cells = shortprop_cells(sg, wilf, inv_e);
    out.append(cells.as_str());
    out.append("</tr></tbody></table>");
    out
}

} // verus!
