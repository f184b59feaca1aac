//! The list of all enumerated semigroups up to a genus: one row per
//! semigroup, ordered by `(g, m, q₁, c₁)`, as an HTML page and as JSON, and
//! the number of semigroups for each `(g, level, m, μ)`.
//!
//! The Wilf quotient `σ/(f + 1)` and `1/e` are floating-point numbers; each
//! row carries them already written out, with four decimals for the page and
//! six for the JSON.
use vstd::prelude::*;
use vstd::string::StringExecFns;
use crate::gap_script::{joined, push_joined};
use crate::html::{glyph, glyph_text};
use crate::inspect::min_r;
use crate::semigroup::Semigroup;
use crate::strata::dec;
use crate::text::{bool_text, int_text, push_bool, push_int, push_usize};

verus! {

/// One semigroup of the enumeration, with the slice it came from.
pub struct Listed {
    /// Genus.
    pub g: usize,
    /// Multiplicity of the slice.
    pub m: usize,
    /// The slice parameter `q₁`, with `w₁ = m·q₁ + 1`.
    pub q1: usize,
    /// The lattice point: the first column of the reduced Kunz matrix.
    pub c1: Vec<i64>,
    /// The semigroup.
    pub sg: Semigroup,
    /// The Wilf quotient with four decimals.
    pub wilf4: String,
    /// `1/e` with four decimals.
    pub inv_e4: String,
    /// The Wilf quotient with six decimals.
    pub wilf6: String,
    /// `1/e` with six decimals.
    pub inv_e6: String,
}

/// Lexicographic order of integer sequences, a proper prefix first.
pub open spec fn seq_lt(a: Seq<i64>, b: Seq<i64>) -> bool
    decreases a.len(),
{
    if a.len() == 0 {
        b.len() > 0
    } else if b.len() == 0 {
        false
    } else if a[0] != b[0] {
        a[0] < b[0]
    } else {
        seq_lt(a.drop_first(), b.drop_first())
    }
}

/// No sequence precedes itself.
pub proof fn lemma_seq_lt_irreflexive(a: Seq<i64>)
    ensures
        !seq_lt(a, a),
    decreases a.len(),
{
    if a.len() > 0 {
        lemma_seq_lt_irreflexive(a.drop_first());
    }
}

/// The lexicographic order is transitive.
pub proof fn lemma_seq_lt_transitive(a: Seq<i64>, b: Seq<i64>, c: Seq<i64>)
    requires
        seq_lt(a, b),
        seq_lt(b, c),
    ensures
        seq_lt(a, c),
    decreases a.len(),
{
    if a.len() > 0 && b.len() > 0 && c.len() > 0 && a[0] == b[0] && b[0] == c[0] {
        lemma_seq_lt_transitive(a.drop_first(), b.drop_first(), c.drop_first());
    }
}

/// Of two different sequences one precedes the other.
pub proof fn lemma_seq_lt_total(a: Seq<i64>, b: Seq<i64>)
    requires
        a != b,
    ensures
        seq_lt(a, b) || seq_lt(b, a),
    decreases a.len(),
{
    if a.len() > 0 && b.len() > 0 && a[0] == b[0] {
        if a.drop_first() == b.drop_first() {
            assert(a =~= seq![a[0]] + a.drop_first());
            assert(b =~= seq![b[0]] + b.drop_first());
        }
        lemma_seq_lt_total(a.drop_first(), b.drop_first());
    } else if a.len() == 0 && b.len() == 0 {
        assert(a =~= b);
    }
}

/// The sort key of a row.
pub open spec fn key_of(r: Listed) -> (usize, usize, usize, Seq<i64>) {
    (r.g, r.m, r.q1, r.c1@)
}

/// Key `x` comes strictly before key `y`: by `g`, then `m`, then `q₁`, then
/// the lattice point.
pub open spec fn key_lt(x: (usize, usize, usize, Seq<i64>), y: (usize, usize, usize, Seq<i64>)) -> bool {
    ||| x.0 < y.0
    ||| x.0 == y.0 && x.1 < y.1
    ||| x.0 == y.0 && x.1 == y.1 && x.2 < y.2
    ||| x.0 == y.0 && x.1 == y.1 && x.2 == y.2 && seq_lt(x.3, y.3)
}

/// The key order is a strict order.
pub proof fn lemma_key_order(
    x: (usize, usize, usize, Seq<i64>),
    y: (usize, usize, usize, Seq<i64>),
    z: (usize, usize, usize, Seq<i64>),
)
    ensures
        !key_lt(x, x),
        key_lt(x, y) && key_lt(y, z) ==> key_lt(x, z),
{
    lemma_seq_lt_irreflexive(x.3);
    if key_lt(x, y) && key_lt(y, z) && x.0 == y.0 && y.0 == z.0 && x.1 == y.1 && y.1 == z.1 && x.2 == y.2 && y.2
        == z.2 {
        lemma_seq_lt_transitive(x.3, y.3, z.3);
    }
}

/// Whether the lattice point `a` comes before `b`.
fn seq_less(a: &Vec<i64>, b: &Vec<i64>) -> (r: bool)
    ensures
        r == seq_lt(a@, b@),
{
    let mut k: usize = 0;
    proof {
        assert(a@.skip(0) =~= a@);
        assert(b@.skip(0) =~= b@);
    }
    while k < a.len() && k < b.len() && a[k] == b[k]
        invariant
            k <= a@.len(),
            k <= b@.len(),
            seq_lt(a@, b@) == seq_lt(a@.skip(k as int), b@.skip(k as int)),
        decreases a@.len() - k,
    {
        proof {
            assert(a@.skip(k as int).drop_first() =~= a@.skip(k + 1));
            assert(b@.skip(k as int).drop_first() =~= b@.skip(k + 1));
        }
        k = k + 1;
    }
    if k == a.len() {
        k < b.len()
    } else if k == b.len() {
        false
    } else {
        a[k] < b[k]
    }
}

/// Whether row `x` comes strictly before row `y`.
fn key_less(x: &Listed, y: &Listed) -> (r: bool)
    ensures
        r == key_lt(key_of(*x), key_of(*y)),
{
    if x.g != y.g {
        x.g < y.g
    } else if x.m != y.m {
        x.m < y.m
    } else if x.q1 != y.q1 {
        x.q1 < y.q1
    } else {
        seq_less(&x.c1, &y.c1)
    }
}

/// `ord` lists each index below `n` once.
pub open spec fn is_permutation(ord: Seq<usize>, n: int) -> bool {
    &&& ord.len() == n
    &&& forall|i: int| 0 <= i < n ==> #[trigger] ord[i] < n
    &&& forall|i: int, j: int| 0 <= i < j < n ==> #[trigger] ord[i] != #[trigger] ord[j]
}

/// `ord` lists the rows in the order of their keys: it is a permutation and
/// no row comes after one with a greater key.
pub open spec fn sorting_order(rows: Seq<Listed>, ord: Seq<usize>) -> bool {
    &&& is_permutation(ord, rows.len() as int)
    &&& forall|i: int, j: int|
        0 <= i < j < ord.len() ==> !key_lt(key_of(rows[#[trigger] ord[j] as int]), key_of(rows[#[trigger] ord[i] as int]))
}

/// The indices of the rows in the order of their keys (rows with equal keys
/// in any order).
pub fn sort_order(rows: &[Listed]) -> (ord: Vec<usize>)
    ensures
        sorting_order(rows@, ord@),
{
    let n = rows.len();
    let mut ord: Vec<usize> = Vec::new();
    let mut k: usize = 0;
    while k < n
        invariant
            n == rows@.len(),
            k <= n,
            ord@.len() == k,
            forall|i: int| 0 <= i < k ==> #[trigger] ord@[i] < k,
            forall|i: int, j: int| 0 <= i < j < k ==> #[trigger] ord@[i] != #[trigger] ord@[j],
            forall|i: int, j: int|
                0 <= i < j < k ==> !key_lt(key_of(rows@[#[trigger] ord@[j] as int]), key_of(rows@[#[trigger] ord@[i] as int])),
        decreases n - k,
    {
        let mut p: usize = 0;
        while p < k && !key_less(&rows[k], &rows[ord[p]])
            invariant
                n == rows@.len(),
                k < n,
                p <= k,
                ord@.len() == k,
                forall|i: int| 0 <= i < k ==> #[trigger] ord@[i] < k,
                forall|i: int| 0 <= i < p ==> !key_lt(key_of(rows@[k as int]), key_of(rows@[#[trigger] ord@[i] as int])),
            decreases k - p,
        {
            p = p + 1;
        }
        let ghost old_ord = ord@;
        ord.insert(p, k);
        proof {
            let new_key = key_of(rows@[k as int]);
            assert(ord@ == old_ord.insert(p as int, k));
            assert forall|i: int| 0 <= i < k + 1 implies #[trigger] ord@[i] < k + 1 by {
                if i < p {
                    assert(ord@[i] == old_ord[i]);
                } else if i > p {
                    assert(ord@[i] == old_ord[i - 1]);
                }
            }
            assert forall|i: int, j: int| 0 <= i < j < k + 1 implies #[trigger] ord@[i] != #[trigger] ord@[j] by {
                if i < p {
                    assert(ord@[i] == old_ord[i]);
                } else if i > p {
                    assert(ord@[i] == old_ord[i - 1]);
                }
                if j < p {
                    assert(ord@[j] == old_ord[j]);
                } else if j > p {
                    assert(ord@[j] == old_ord[j - 1]);
                }
            }
            assert forall|i: int, j: int| 0 <= i < j < k + 1 implies !key_lt(
                key_of(rows@[#[trigger] ord@[j] as int]),
                key_of(rows@[#[trigger] ord@[i] as int]),
            ) by {
                if j < p {
                    assert(ord@[i] == old_ord[i]);
                    assert(ord@[j] == old_ord[j]);
                } else if j == p {
                    assert(ord@[i] == old_ord[i]);
                } else if i > p {
                    assert(ord@[i] == old_ord[i - 1]);
                    assert(ord@[j] == old_ord[j - 1]);
                } else if i == p {
                    // The new row precedes old_ord[p] (when p < k), which is
                    // no later than the row at j.
                    assert(ord@[j] == old_ord[j - 1]);
                    let y = key_of(rows@[old_ord[j - 1] as int]);
                    let q = key_of(rows@[old_ord[p as int] as int]);
                    assert(key_lt(new_key, q));
                    if j - 1 > p {
                        assert(!key_lt(y, q));
                    }
                    lemma_key_order(y, new_key, q);
                } else {
                    assert(ord@[i] == old_ord[i]);
                    assert(ord@[j] == old_ord[j - 1]);
                    let x = key_of(rows@[old_ord[i] as int]);
                    let y = key_of(rows@[old_ord[j - 1] as int]);
                    let q = key_of(rows@[old_ord[p as int] as int]);
                    assert(!key_lt(y, x));
                }
            }
        }
        k = k + 1;
    }
    ord
}

/// The opening of an HTML page with the shared style sheet, its title as
/// `<title>` and `<h1>`, and then `intro`.
pub open spec fn html_head_text(title: Seq<char>, intro: Seq<char>) -> Seq<char> {
    "<!DOCTYPE html>\n<html lang=\"en\">\n<head>\n<meta charset=\"UTF-8\">\n<title>"@ + title + "</title>\n<style>\n*{box-sizing:border-box}\nbody{background:#fff;color:#222;font-family:monospace;margin:2em auto;max-width:1400px;padding:0 1.5em}\nh1,h2,h3{color:#1a1a8e;margin:.6em 0 .3em}\np{margin:.3em 0 .8em;line-height:1.5}\na{color:#1565c0}\ntable{border-collapse:collapse;margin:.5em 0;font-size:.87em}\nth,td{padding:3px 10px;border:1px solid #ccc;text-align:right}\nthead th,tfoot td{background:#f0f4f8;color:#333}\nth.lbl{text-align:left;color:#333}\ntd.zero{color:#ccc}\ntd.pos{background:#e3f2fd;color:#1565c0;font-weight:bold}\ntd.sum{color:#1a1a8e;font-weight:bold}\ninput.gens,input.pfs{font-size:.82em;width:11em;border:1px solid #bbb;background:#fff;padding:2px 4px;cursor:text}\nth.sep,td.sep{border-left:2px solid #888}\n.scroll{overflow-x:auto}\ndl.legend{display:grid;grid-template-columns:max-content 1fr;gap:.2em .8em;margin:.4em 0 .8em;font-size:.85em;line-height:1.4}\ndl.legend dt{color:#1a1a8e;font-weight:bold;text-align:right}\ndl.legend dd{margin:0;color:#333}\np.note{font-size:.85em;color:#555;background:#f8f9fa;border-left:3px solid #1565c0;padding:.4em .8em;margin:.6em 0}\ncode{background:#f0f4f8;padding:0 .25em;border-radius:3px}\n</style>\n</head>\n<body>\n<h1>"@ + title + "</h1>\n"@ + intro
}

/// Appends [`html_head_text`].
pub fn push_html_head(out: &mut String, title: &str, intro: &str)
    ensures
        final(out)@ == old(out)@ + html_head_text(title@, intro@),
{
    out.append("<!DOCTYPE html>\n<html lang=\"en\">\n<head>\n<meta charset=\"UTF-8\">\n<title>");
    out.append(title);
    out.append("</title>\n<style>\n*{box-sizing:border-box}\nbody{background:#fff;color:#222;font-family:monospace;margin:2em auto;max-width:1400px;padding:0 1.5em}\nh1,h2,h3{color:#1a1a8e;margin:.6em 0 .3em}\np{margin:.3em 0 .8em;line-height:1.5}\na{color:#1565c0}\ntable{border-collapse:collapse;margin:.5em 0;font-size:.87em}\nth,td{padding:3px 10px;border:1px solid #ccc;text-align:right}\nthead th,tfoot td{background:#f0f4f8;color:#333}\nth.lbl{text-align:left;color:#333}\ntd.zero{color:#ccc}\ntd.pos{background:#e3f2fd;color:#1565c0;font-weight:bold}\ntd.sum{color:#1a1a8e;font-weight:bold}\ninput.gens,input.pfs{font-size:.82em;width:11em;border:1px solid #bbb;background:#fff;padding:2px 4px;cursor:text}\nth.sep,td.sep{border-left:2px solid #888}\n.scroll{overflow-x:auto}\ndl.legend{display:grid;grid-template-columns:max-content 1fr;gap:.2em .8em;margin:.4em 0 .8em;font-size:.85em;line-height:1.4}\ndl.legend dt{color:#1a1a8e;font-weight:bold;text-align:right}\ndl.legend dd{margin:0;color:#333}\np.note{font-size:.85em;color:#555;background:#f8f9fa;border-left:3px solid #1565c0;padding:.4em .8em;margin:.6em 0}\ncode{background:#f0f4f8;padding:0 .25em;border-radius:3px}\n</style>\n</head>\n<body>\n<h1>");
    out.append(title);
    out.append("</h1>\n");
    out.append(intro);
    proof {
        assert(final(out)@ =~= old(out)@ + html_head_text(title@, intro@));
    }
}

/// `ρ`: the least `r_i` over the classes `i ≠ μ`, or 0.
pub open spec fn rho_of(s: Semigroup) -> int {
    match min_r(s.apery_set@, s.m as int, s.mu as int, s.m as int) {
        Some(v) => v,
        None => 0,
    }
}

/// The interval `(f − m, f)` lies in S (and `f ≥ m`).
pub open spec fn v_in_s_of(s: Semigroup) -> bool {
    s.f >= s.m && forall|i: int| s.f - s.m + 1 <= i < s.f ==> #[trigger] s.contains(i)
}

/// `<td>` around a number.
pub open spec fn td(n: nat) -> Seq<char> {
    "<td>"@ + dec(n) + "</td>"@
}

/// The cells of a list row after `g` and `m`: `f`, `es`, `e`, `σ`, `g`,
/// `rl`, `t`, `r`, `ra`, `fg`, symmetric, almost symmetric, the level, the
/// generators and the pseudo-Frobenius numbers (in read-only text boxes),
/// the Wilf quotient and `1/e` as given, `ρ`, deep, and `V ⊆ S`.
#[verifier::opaque]
pub open spec fn props_text(s: Semigroup, wilf: Seq<char>, inv_e: Seq<char>) -> Seq<char> {
    td(s.f as nat) + td(s.es as nat) + td(s.e as nat) + td(s.sigma as nat) + td(s.g as nat) + td(s.rl as nat) + td(
        s.t as nat,
    ) + td(s.r as nat) + td(s.ra as nat) + td(s.fg as nat) + "<td>"@ + glyph_text(s.is_symmetric) + "</td><td>"@
        + glyph_text(s.is_almost_symmetric) + "</td>"@ + td(s.level as nat)
        + "<td><input class=\"gens\" type=\"text\" readonly value=\""@ + joined(s.gen_set@, ", "@)
        + "\"></td><td><input class=\"pfs\" type=\"text\" readonly value=\""@ + joined(s.pf_set@, ", "@)
        + "\"></td><td>"@ + wilf + "</td><td>"@ + inv_e + "</td>"@ + td(rho_of(s) as nat) + "<td>"@ + glyph_text(
        s.deep,
    ) + "</td><td>"@ + glyph_text(v_in_s_of(s)) + "</td>"@
}

/// Appends `<td>n</td>`.
fn push_td(out: &mut String, n: usize)
    ensures
        final(out)@ == old(out)@ + td(n as nat),
{
    out.append("<td>");
    push_usize(out, n);
    out.append("</td>");
    proof {
        assert(final(out)@ =~= old(out)@ + td(n as nat));
    }
}

/// The cells of a list row after `g` and `m`; `wilf` and `inv_e` are the
/// Wilf quotient and `1/e` as written out.
pub fn props_cells(sg: &Semigroup, wilf: &str, inv_e: &str) -> (html: String)
    requires
        sg.wf(),
    ensures
        html@ == props_text(*sg, wilf@, inv_e@),
{
    let mut out = String::new();
    push_td(&mut out, sg.f);
    push_td(&mut out, sg.es);
    push_td(&mut out, sg.e);
    push_td(&mut out, sg.sigma);
    push_td(&mut out, sg.g);
    push_td(&mut out, sg.rl);
    push_td(&mut out, sg.t);
    push_td(&mut out, sg.r);
    push_td(&mut out, sg.ra);
    push_td(&mut out, sg.fg);
    let ghost a = out@;
    out.append("<td>");
    out.append(glyph(sg.is_symmetric));
    out.append("</td><td>");
    out.append(glyph(sg.is_almost_symmetric));
    out.append("</td>");
    push_td(&mut out, sg.level);
    let ghost b = out@;
    out.append("<td><input class=\"gens\" type=\"text\" readonly value=\"");
    push_joined(&mut out, &sg.gen_set, ", ");
    out.append("\"></td><td><input class=\"pfs\" type=\"text\" readonly value=\"");
    push_joined(&mut out, &sg.pf_set, ", ");
    out.append("\"></td><td>");
    out.append(wilf);
    out.append("</td><td>");
    out.append(inv_e);
    out.append("</td>");
    let ghost c = out@;
    let rho = sg.rho();
    push_td(&mut out, rho);
    out.append("<td>");
    out.append(glyph(sg.deep));
    out.append("</td><td>");
    let vins = sg.v_in_s();
    out.append(glyph(vins));
    out.append("</td>");
    proof {
        let s = *sg;
        assert(b =~= a + "<td>"@ + glyph_text(s.is_symmetric) + "</td><td>"@ + glyph_text(s.is_almost_symmetric)
            + "</td>"@ + td(s.level as nat));
        assert(c =~= b + "<td><input class=\"gens\" type=\"text\" readonly value=\""@ + joined(s.gen_set@, ", "@)
            + "\"></td><td><input class=\"pfs\" type=\"text\" readonly value=\""@ + joined(s.pf_set@, ", "@)
            + "\"></td><td>"@ + wilf@ + "</td><td>"@ + inv_e@ + "</td>"@);
        assert(out@ =~= c + td(rho_of(s) as nat) + "<td>"@ + glyph_text(s.deep) + "</td><td>"@ + glyph_text(
            v_in_s_of(s),
        ) + "</td>"@);
        reveal(props_text);
        assert(out@ =~= props_text(s, wilf@, inv_e@));
    }
    out
}

/// The title of the list page.
pub open spec fn list_title(gmax: nat) -> Seq<char> {
    "Numerical Semigroups \u{2014} genus 2 to "@ + dec(gmax) + " (list)"@
}

/// The introduction of the list page.
pub open spec fn list_intro(gmax: nat) -> Seq<char> {
    "<p>One row per numerical semigroup, ordered by (g, m, q\u{2081}). Columns\nc<sub>1,j</sub> are entries of the first column of the reduced Kunz\nmatrix C<sub>red</sub>; rows with m\u{2212}1\u{a0}&lt;\u{a0}"@ + dec(gmax) + " are\nzero-padded to "@ + dec(gmax) + " columns.\nThe same data is also available as JSON in\n<a href=\"semigroup_g_from2to"@ + dec(gmax) + "_list.json\">semigroup_g_from2to"@ + dec(gmax) + "_list.json</a>.</p>\n"@
}

/// The opening of the table and its fixed header cells.
pub open spec fn list_table_head() -> Seq<char> {
    "<div class=\"scroll\"><table><thead><tr><th>g</th><th title=\"Multiplicity (smallest positive element)\">m</th><th title=\"Frobenius number\">f</th><th title=\"Small minimal generators: count of minimal generators g with g &lt; f\u{2212}m\">es</th><th title=\"Embedding dimension\">e</th><th title=\"Sporadic elements (count of S below f+1)\">\u{3c3}</th><th title=\"Genus (number of gaps)\">g</th><th title=\"Large reflected gaps: gaps L with f\u{2212}m &lt; L &lt; f (automatically reflected)\">rl</th><th title=\"Type (|PF|)\">t</th><th title=\"Reflected gaps\">r</th><th title=\"Reflected Ap\u{e9}ry\">ra</th><th title=\"Fundamental gaps: gaps n with every multiple kn (k\u{2265}2) in S\">fg</th><th title=\"Symmetric? (t=1, equivalently f+1=2g)\">Sym</th><th title=\"Almost-symmetric? (f+t=2g, equivalently ra=r and PF\u{2216}{f}=reflected gaps)\">ASym</th><th title=\"Level of f: level\u{b7}m &lt; f &lt; (level+1)\u{b7}m\">level</th><th title=\"Minimal generators\">gen</th><th title=\"Pseudo-Frobenius numbers\">PF</th><th title=\"Wilf quotient \u{3c3}/(f+1)\">Wilf</th><th title=\"1/e\">1/e</th><th title=\"\u{3c1} = min over i\u{2208}1..m, i\u{2260}\u{3bc} of r_i (reflected gaps in residue class i mod m)\">\u{3c1}</th><th title=\"Deep: all elements m+1\u{2026}2m\u{2212}1 are gaps (equivalently every Ap\u{e9}ry element w_i&gt;2m, every Kunz quotient q_i\u{2265}2)\">deep</th><th title=\"V(S) = {f\u{2212}m+1, \u{2026}, f\u{2212}1} \u{2286} S: the interval just below f is full\">V\u{2286}S</th>"@
}

/// `class="sep"` on the first column of a block.
pub open spec fn sep_attr(first: bool) -> Seq<char> {
    if first {
        " class=\"sep\""@
    } else {
        Seq::empty()
    }
}

/// The header cells `c_{1,1} … c_{1,k}`.
pub open spec fn c1_header(k: nat) -> Seq<char>
    decreases k,
{
    if k == 0 {
        Seq::empty()
    } else {
        c1_header((k - 1) as nat) + "<th"@ + sep_attr(k == 1) + ">c<sub>1,"@ + dec(k) + "</sub></th>"@
    }
}

/// The entry `j` of the lattice point, 0 past its end.
pub open spec fn c1_at(c1: Seq<i64>, j: int) -> int {
    if 0 <= j < c1.len() {
        c1[j] as int
    } else {
        0
    }
}

/// The cells of the first `k` entries of the lattice point, padded with 0.
pub open spec fn c1_cells(c1: Seq<i64>, k: nat) -> Seq<char>
    decreases k,
{
    if k == 0 {
        Seq::empty()
    } else {
        c1_cells(c1, (k - 1) as nat) + "<td"@ + sep_attr(k == 1) + ">"@ + int_text(c1_at(c1, k - 1)) + "</td>"@
    }
}

/// One row of the list; the first row of a genus carries the anchor `g{g}`.
#[verifier::opaque]
pub open spec fn list_row_text(r: Listed, gmax: nat, anchor: bool) -> Seq<char> {
    "<tr"@ + (if anchor { " id=\"g"@ + dec(r.g as nat) + "\""@ } else { Seq::empty() }) + "><td>"@ + dec(r.g as nat)
        + "</td><td>"@ + dec(r.m as nat) + "</td>"@ + props_text(r.sg, r.wilf4@, r.inv_e4@) + c1_cells(r.c1@, gmax)
        + "</tr>\n"@
}

/// Row `k` of the order opens a genus: it is the first or its genus
/// differs from that of the row before.
pub open spec fn opens_genus(rows: Seq<Listed>, ord: Seq<usize>, k: int) -> bool {
    k == 0 || rows[ord[k - 1] as int].g != rows[ord[k] as int].g
}

/// The first `k` rows in the order `ord`.
pub open spec fn list_body(rows: Seq<Listed>, ord: Seq<usize>, k: int, gmax: nat) -> Seq<char>
    decreases k,
{
    if k <= 0 {
        Seq::empty()
    } else {
        list_body(rows, ord, k - 1, gmax) + list_row_text(rows[ord[k - 1] as int], gmax, opens_genus(rows, ord, k - 1))
    }
}

/// The list page with the rows in the order `ord`.
pub open spec fn list_page(gmax: nat, rows: Seq<Listed>, ord: Seq<usize>) -> Seq<char> {
    html_head_text(list_title(gmax), list_intro(gmax)) + list_table_head() + c1_header(gmax)
        + "</tr></thead><tbody>\n"@ + list_body(rows, ord, ord.len() as int, gmax)
        + "</tbody></table></div>\n</body></html>\n"@
}

/// Appends the cells of the first `k` entries of the lattice point.
fn push_c1_cells(out: &mut String, c1: &Vec<i64>, k: usize)
    ensures
        final(out)@ == old(out)@ + c1_cells(c1@, k as nat),
{
    let ghost start = out@;
    let mut j: usize = 0;
    while j < k
        invariant
            j <= k,
            out@ == start + c1_cells(c1@, j as nat),
        decreases k - j,
    {
        out.append("<td");
        if j == 0 {
            out.append(" class=\"sep\"");
        }
        out.append(">");
        let v: i64 = if j < c1.len() { c1[j] } else { 0 };
        push_int(&mut *out, v);
        out.append("</td>");
        proof {
            assert(out@ =~= start + c1_cells(c1@, (j + 1) as nat));
        }
        j = j + 1;
    }
}

/// Appends the header cells `c_{1,1} … c_{1,k}`.
fn push_c1_header(out: &mut String, k: usize)
    ensures
        final(out)@ == old(out)@ + c1_header(k as nat),
{
    let ghost start = out@;
    let mut j: usize = 0;
    while j < k
        invariant
            j <= k,
            out@ == start + c1_header(j as nat),
        decreases k - j,
    {
        out.append("<th");
        if j == 0 {
            out.append(" class=\"sep\"");
        }
        out.append(">c<sub>1,");
        push_usize(&mut *out, j + 1);
        out.append("</sub></th>");
        proof {
            assert(out@ =~= start + c1_header((j + 1) as nat));
        }
        j = j + 1;
    }
}

/// Appends one row of the list.
fn push_list_row(out: &mut String, r: &Listed, gmax: usize, anchor: bool)
    requires
        r.sg.wf(),
    ensures
        final(out)@ == old(out)@ + list_row_text(*r, gmax as nat, anchor),
{
    out.append("<tr");
    if anchor {
        out.append(" id=\"g");
        push_usize(&mut *out, r.g);
        out.append("\"");
    }
    out.append("><td>");
    push_usize(&mut *out, r.g);
    out.append("</td><td>");
    push_usize(&mut *out, r.m);
    out.append("</td>");
    let ghost mid = out@;
    let cells = props_cells(&r.sg, r.wilf4.as_str(), r.inv_e4.as_str());
    out.append(cells.as_str());
    push_c1_cells(&mut *out, &r.c1, gmax);
    out.append("</tr>\n");
    proof {
        reveal(list_row_text);
        assert(final(out)@ =~= old(out)@ + list_row_text(*r, gmax as nat, anchor));
    }
}

/// The list page with the rows in the order `ord`.
pub fn list_html(gmax: usize, rows: &[Listed], ord: &[usize]) -> (html: String)
    requires
        forall|k: int| 0 <= k < rows@.len() ==> (#[trigger] rows@[k]).sg.wf(),
        forall|i: int| 0 <= i < ord@.len() ==> #[trigger] ord@[i] < rows@.len(),
    ensures
        html@ == list_page(gmax as nat, rows@, ord@),
{
    let mut title = String::new();
    title.append("Numerical Semigroups \u{2014} genus 2 to ");
    push_usize(&mut title, gmax);
    title.append(" (list)");
    let mut intro = String::new();
    intro.append("<p>One row per numerical semigroup, ordered by (g, m, q\u{2081}). Columns\nc<sub>1,j</sub> are entries of the first column of the reduced Kunz\nmatrix C<sub>red</sub>; rows with m\u{2212}1\u{a0}&lt;\u{a0}");
    push_usize(&mut intro, gmax);
    intro.append(" are\nzero-padded to ");
    push_usize(&mut intro, gmax);
    intro.append(" columns.\nThe same data is also available as JSON in\n<a href=\"semigroup_g_from2to");
    push_usize(&mut intro, gmax);
    intro.append("_list.json\">semigroup_g_from2to");
    push_usize(&mut intro, gmax);
    intro.append("_list.json</a>.</p>\n");
    proof {
        assert(title@ =~= list_title(gmax as nat));
        assert(intro@ =~= list_intro(gmax as nat));
    }
    let mut out = String::new();
    push_html_head(&mut out, title.as_str(), intro.as_str());
    out.append("<div class=\"scroll\"><table><thead><tr><th>g</th><th title=\"Multiplicity (smallest positive element)\">m</th><th title=\"Frobenius number\">f</th><th title=\"Small minimal generators: count of minimal generators g with g &lt; f\u{2212}m\">es</th><th title=\"Embedding dimension\">e</th><th title=\"Sporadic elements (count of S below f+1)\">\u{3c3}</th><th title=\"Genus (number of gaps)\">g</th><th title=\"Large reflected gaps: gaps L with f\u{2212}m &lt; L &lt; f (automatically reflected)\">rl</th><th title=\"Type (|PF|)\">t</th><th title=\"Reflected gaps\">r</th><th title=\"Reflected Ap\u{e9}ry\">ra</th><th title=\"Fundamental gaps: gaps n with every multiple kn (k\u{2265}2) in S\">fg</th><th title=\"Symmetric? (t=1, equivalently f+1=2g)\">Sym</th><th title=\"Almost-symmetric? (f+t=2g, equivalently ra=r and PF\u{2216}{f}=reflected gaps)\">ASym</th><th title=\"Level of f: level\u{b7}m &lt; f &lt; (level+1)\u{b7}m\">level</th><th title=\"Minimal generators\">gen</th><th title=\"Pseudo-Frobenius numbers\">PF</th><th title=\"Wilf quotient \u{3c3}/(f+1)\">Wilf</th><th title=\"1/e\">1/e</th><th title=\"\u{3c1} = min over i\u{2208}1..m, i\u{2260}\u{3bc} of r_i (reflected gaps in residue class i mod m)\">\u{3c1}</th><th title=\"Deep: all elements m+1\u{2026}2m\u{2212}1 are gaps (equivalently every Ap\u{e9}ry element w_i&gt;2m, every Kunz quotient q_i\u{2265}2)\">deep</th><th title=\"V(S) = {f\u{2212}m+1, \u{2026}, f\u{2212}1} \u{2286} S: the interval just below f is full\">V\u{2286}S</th>");
    push_c1_header(&mut out, gmax);
    out.append("</tr></thead><tbody>\n");
    let ghost start = out@;
    let mut k: usize = 0;
    proof {
        assert(start =~= start + list_body(rows@, ord@, 0, gmax as nat));
    }
    while k < ord.len()
        invariant
            k <= ord@.len(),
            forall|j: int| 0 <= j < rows@.len() ==> (#[trigger] rows@[j]).sg.wf(),
            forall|i: int| 0 <= i < ord@.len() ==> #[trigger] ord@[i] < rows@.len(),
            out@ == start + list_body(rows@, ord@, k as int, gmax as nat),
        decreases ord@.len() - k,
    {
        let anchor = k == 0 || rows[ord[k - 1]].g != rows[ord[k]].g;
        push_list_row(&mut out, &rows[ord[k]], gmax, anchor);
        proof {
            assert(anchor == opens_genus(rows@, ord@, k as int));
            assert(out@ =~= start + list_body(rows@, ord@, k + 1, gmax as nat));
        }
        k = k + 1;
    }
    out.append("</tbody></table></div>\n</body></html>\n");
    proof {
        assert(out@ =~= list_page(gmax as nat, rows@, ord@));
    }
    out
}

/// The list page: one row per semigroup in the order of `(g, m, q₁, c₁)`
/// (see [`sort_order`]), with the cells of [`props_cells`] and the lattice
/// point padded to `gmax` entries.
pub fn build_list_html(gmax: usize, rows: &[Listed]) -> (html: String)
    requires
        forall|k: int| 0 <= k < rows@.len() ==> (#[trigger] rows@[k]).sg.wf(),
    ensures
        exists|ord: Seq<usize>| sorting_order(rows@, ord) && html@ == list_page(gmax as nat, rows@, ord),
{
    let ord = sort_order(rows);
    let html = list_html(gmax, rows, ord.as_slice());
    proof {
        assert(sorting_order(rows@, ord@) && html@ == list_page(gmax as nat, rows@, ord@));
    }
    html
}

/// The key `(g, level, m, μ)` of a row.
pub open spec fn lm_key(r: Listed) -> (usize, usize, usize, usize) {
    (r.g, r.sg.level, r.m, r.sg.mu)
}

/// Lexicographic order of `(g, level, m, μ)`.
pub open spec fn lm_lt(a: (usize, usize, usize, usize), b: (usize, usize, usize, usize)) -> bool {
    ||| a.0 < b.0
    ||| a.0 == b.0 && a.1 < b.1
    ||| a.0 == b.0 && a.1 == b.1 && a.2 < b.2
    ||| a.0 == b.0 && a.1 == b.1 && a.2 == b.2 && a.3 < b.3
}

/// The number of rows with key `key`.
pub open spec fn count_key(rows: Seq<Listed>, key: (usize, usize, usize, usize)) -> nat
    decreases rows.len(),
{
    if rows.len() == 0 {
        0
    } else {
        count_key(rows.drop_last(), key) + if lm_key(rows.last()) == key { 1nat } else { 0nat }
    }
}

/// `v` lists the keys of the rows, each once and in increasing order,
/// with the number of rows that have it.
pub open spec fn level_mu_of(rows: Seq<Listed>, v: Seq<((usize, usize, usize, usize), usize)>) -> bool {
    &&& forall|i: int, j: int| 0 <= i < j < v.len() ==> lm_lt(#[trigger] v[i].0, #[trigger] v[j].0)
    &&& forall|i: int| 0 <= i < v.len() ==> #[trigger] v[i].1 == count_key(rows, v[i].0) && v[i].1 > 0
    &&& forall|k: int| 0 <= k < rows.len() ==> exists|i: int| 0 <= i < v.len() && #[trigger] v[i].0 == lm_key(#[trigger] rows[k])
}

/// The rows before `k` of a sequence with one more row.
proof fn lemma_count_key_push(rows: Seq<Listed>, k: int, key: (usize, usize, usize, usize))
    requires
        0 <= k < rows.len(),
    ensures
        count_key(rows.take(k + 1), key) == count_key(rows.take(k), key) + if lm_key(rows[k]) == key { 1nat } else { 0nat },
{
    assert(rows.take(k + 1).drop_last() =~= rows.take(k));
}

/// No row of an empty-keyed prefix has a key that is not listed.
proof fn lemma_count_key_zero(rows: Seq<Listed>, key: (usize, usize, usize, usize))
    requires
        forall|k: int| 0 <= k < rows.len() ==> lm_key(#[trigger] rows[k]) != key,
    ensures
        count_key(rows, key) == 0,
    decreases rows.len(),
{
    if rows.len() > 0 {
        lemma_count_key_zero(rows.drop_last(), key);
    }
}

/// The number of semigroups for each `(g, level, m, μ)` that occurs, in
/// increasing order.
pub fn level_mu_counts(rows: &[Listed]) -> (v: Vec<((usize, usize, usize, usize), usize)>)
    ensures
        level_mu_of(rows@, v@),
{
    let n = rows.len();
    let mut v: Vec<((usize, usize, usize, usize), usize)> = Vec::new();
    let mut k: usize = 0;
    proof {
        assert(rows@.take(0) =~= Seq::<Listed>::empty());
    }
    while k < n
        invariant
            n == rows@.len(),
            k <= n,
            level_mu_of(rows@.take(k as int), v@),
            forall|i: int| 0 <= i < v@.len() ==> #[trigger] v@[i].1 <= k,
        decreases n - k,
    {
        let key = (rows[k].g, rows[k].sg.level, rows[k].m, rows[k].sg.mu);
        let ghost pre = rows@.take(k as int);
        let ghost post = rows@.take(k + 1);
        let ghost old_v = v@;
        proof {
            assert(key == lm_key(rows@[k as int]));
            assert forall|i: int| 0 <= i < v@.len() implies count_key(post, #[trigger] v@[i].0) == count_key(pre, v@[i].0)
                + if v@[i].0 == key { 1nat } else { 0nat } by {
                lemma_count_key_push(rows@, k as int, v@[i].0);
            }
            assert forall|j: int| 0 <= j < k implies #[trigger] post[j] == pre[j] by {}
            assert(post[k as int] == rows@[k as int]);
        }
        let mut p: usize = 0;
        while p < v.len() && (v[p].0.0 < key.0 || (v[p].0.0 == key.0 && (v[p].0.1 < key.1 || (v[p].0.1 == key.1 && (
        v[p].0.2 < key.2 || (v[p].0.2 == key.2 && v[p].0.3 < key.3))))))
            invariant
                p <= v@.len(),
                forall|i: int| 0 <= i < p ==> lm_lt(#[trigger] v@[i].0, key),
            decreases v@.len() - p,
        {
            p = p + 1;
        }
        if p < v.len() && v[p].0.0 == key.0 && v[p].0.1 == key.1 && v[p].0.2 == key.2 && v[p].0.3 == key.3 {
            let c = v[p].1;
            v.set(p, (key, c + 1));
            proof {
                assert forall|i: int, j: int| 0 <= i < j < v@.len() implies lm_lt(#[trigger] v@[i].0, #[trigger] v@[j].0) by {
                    assert(v@[i].0 == old_v[i].0);
                    assert(v@[j].0 == old_v[j].0);
                }
                assert forall|i: int| 0 <= i < v@.len() implies #[trigger] v@[i].1 == count_key(post, v@[i].0) && v@[i].1 > 0 by {
                    if i != p {
                        assert(v@[i] == old_v[i]);
                        assert(old_v[i].0 != key) by {
                            if i < p {
                                assert(lm_lt(old_v[i].0, old_v[p as int].0));
                            } else {
                                assert(lm_lt(old_v[p as int].0, old_v[i].0));
                            }
                        }
                    }
                }
                assert forall|j: int| 0 <= j < post.len() implies exists|i: int| 0 <= i < v@.len() && #[trigger] v@[i].0
                    == lm_key(#[trigger] post[j]) by {
                    if j < k {
                        let i = choose|i: int| 0 <= i < old_v.len() && #[trigger] old_v[i].0 == lm_key(pre[j]);
                        assert(v@[i].0 == old_v[i].0);
                    } else {
                        assert(v@[p as int].0 == lm_key(post[j]));
                    }
                }
            }
        } else {
            proof {
                assert(forall|j: int| 0 <= j < k ==> lm_key(#[trigger] pre[j]) != key) by {
                    assert forall|j: int| 0 <= j < k implies lm_key(#[trigger] pre[j]) != key by {
                        if lm_key(pre[j]) == key {
                            let i = choose|i: int| 0 <= i < old_v.len() && #[trigger] old_v[i].0 == lm_key(pre[j]);
                            if i < p {
                                assert(lm_lt(old_v[i].0, key));
                            } else if i > p {
                                assert(lm_lt(old_v[p as int].0, old_v[i].0));
                            }
                        }
                    }
                }
                lemma_count_key_zero(pre, key);
            }
            v.insert(p, (key, 1));
            proof {
                assert(v@ == old_v.insert(p as int, (key, 1usize)));
                assert forall|i: int, j: int| 0 <= i < j < v@.len() implies lm_lt(#[trigger] v@[i].0, #[trigger] v@[j].0) by {
                    if j < p {
                        assert(v@[i] == old_v[i] && v@[j] == old_v[j]);
                    } else if j == p {
                        assert(v@[i] == old_v[i]);
                    } else if i > p {
                        assert(v@[i] == old_v[i - 1] && v@[j] == old_v[j - 1]);
                    } else if i == p {
                        assert(v@[j] == old_v[j - 1]);
                        assert(!lm_lt(old_v[p as int].0, key));
                        if j - 1 > p {
                            assert(lm_lt(old_v[p as int].0, old_v[j - 1].0));
                        }
                    } else {
                        assert(v@[i] == old_v[i] && v@[j] == old_v[j - 1]);
                    }
                }
                assert forall|i: int| 0 <= i < v@.len() implies #[trigger] v@[i].1 == count_key(post, v@[i].0) && v@[i].1 > 0 by {
                    if i < p {
                        assert(v@[i] == old_v[i]);
                        assert(old_v[i].0 != key);
                    } else if i > p {
                        assert(v@[i] == old_v[i - 1]);
                        assert(old_v[i - 1].0 != key) by {
                            if i - 1 > p {
                                assert(lm_lt(old_v[p as int].0, old_v[i - 1].0));
                            }
                        }
                    } else {
                        lemma_count_key_push(rows@, k as int, key);
                    }
                }
                assert forall|j: int| 0 <= j < post.len() implies exists|i: int| 0 <= i < v@.len() && #[trigger] v@[i].0
                    == lm_key(#[trigger] post[j]) by {
                    if j < k {
                        let i = choose|i: int| 0 <= i < old_v.len() && #[trigger] old_v[i].0 == lm_key(pre[j]);
                        if i < p {
                            assert(v@[i].0 == old_v[i].0);
                        } else {
                            assert(v@[i + 1].0 == old_v[i].0);
                        }
                    } else {
                        assert(v@[p as int].0 == lm_key(post[j]));
                    }
                }
            }
        }
        k = k + 1;
    }
    proof {
        assert(rows@.take(n as int) =~= rows@);
    }
    v
}

/// Integers in decimal, separated by commas.
pub open spec fn comma_ints(v: Seq<i64>) -> Seq<char>
    decreases v.len(),
{
    if v.len() == 0 {
        Seq::empty()
    } else if v.len() == 1 {
        int_text(v[0] as int)
    } else {
        comma_ints(v.drop_last()) + ","@ + int_text(v.last() as int)
    }
}

/// A JSON array of naturals.
#[verifier::opaque]
pub open spec fn json_nums(v: Seq<usize>) -> Seq<char> {
    "["@ + joined(v, ","@) + "]"@
}

/// A JSON array of integers.
#[verifier::opaque]
pub open spec fn json_ints(v: Seq<i64>) -> Seq<char> {
    "["@ + comma_ints(v) + "]"@
}

/// Appends [`json_nums`].
fn push_json_nums(out: &mut String, v: &Vec<usize>)
    ensures
        final(out)@ == old(out)@ + json_nums(v@),
{
    out.append("[");
    push_joined(&mut *out, v, ",");
    out.append("]");
    proof {
        reveal(json_nums);
        assert(final(out)@ =~= old(out)@ + json_nums(v@));
    }
}

/// Appends [`json_ints`].
fn push_json_ints(out: &mut String, v: &Vec<i64>)
    ensures
        final(out)@ == old(out)@ + json_ints(v@),
{
    out.append("[");
    let ghost start = out@;
    let mut i: usize = 0;
    proof {
        assert(comma_ints(v@.subrange(0, 0)) == Seq::<char>::empty());
        assert(out@ =~= start + comma_ints(v@.subrange(0, 0)));
    }
    while i < v.len()
        invariant
            i <= v@.len(),
            out@ == start + comma_ints(v@.subrange(0, i as int)),
        decreases v@.len() - i,
    {
        if i > 0 {
            out.append(",");
        }
        push_int(&mut *out, v[i]);
        proof {
            let t = v@.subrange(0, i + 1);
            assert(t.drop_last() =~= v@.subrange(0, i as int));
            assert(t.last() == v@[i as int]);
            assert(out@ =~= start + comma_ints(t));
        }
        i = i + 1;
    }
    proof {
        assert(v@.subrange(0, v@.len() as int) =~= v@);
    }
    out.append("]");
    proof {
        reveal(json_ints);
        assert(final(out)@ =~= old(out)@ + json_ints(v@));
    }
}

/// `"name":` followed by a number.
#[verifier::opaque]
pub open spec fn field(name: Seq<char>, n: nat) -> Seq<char> {
    "\""@ + name + "\":"@ + dec(n)
}

/// The slice and the invariants up to the type, in JSON.
pub open spec fn json_row_a(r: Listed) -> Seq<char> {
    let s = r.sg;
    field("g"@, r.g as nat) + ","@ + field("m"@, r.m as nat) + ","@ + field("q1"@, r.q1 as nat) + ","@ + field(
        "f"@,
        s.f as nat,
    ) + ","@ + field("es"@, s.es as nat) + ","@ + field("e"@, s.e as nat) + ","@ + field("sigma"@, s.sigma as nat)
        + ","@ + field("rl"@, s.rl as nat) + ","@ + field("r"@, s.r as nat) + ","@ + field("ra"@, s.ra as nat) + ","@
        + field("fg"@, s.fg as nat) + ","@ + field("type"@, s.t as nat)
}

/// Symmetry, level, Wilf quotient, `1/e`, largest generator and `ρ`, in JSON.
pub open spec fn json_row_b(r: Listed) -> Seq<char> {
    let s = r.sg;
    ",\"sym\":"@ + bool_text(s.is_symmetric) + ",\"asym\":"@ + bool_text(s.is_almost_symmetric) + ","@ + field(
        "level"@,
        s.level as nat,
    ) + ",\"wilf\":"@ + r.wilf6@ + ",\"inv_e\":"@ + r.inv_e6@ + ","@ + field("max_gen"@, s.max_gen as nat) + ","@
        + field("rho"@, rho_of(s) as nat)
}

/// Deep, `V ⊆ S`, and the generators, pseudo-Frobenius numbers, Apéry set
/// and lattice point, in JSON.
pub open spec fn json_row_c(r: Listed) -> Seq<char> {
    let s = r.sg;
    ",\"deep\":"@ + bool_text(s.deep) + ",\"v_in_s\":"@ + bool_text(v_in_s_of(s)) + ",\"gen\":"@ + json_nums(s.gen_set@)
        + ",\"pf\":"@ + json_nums(s.pf_set@) + ",\"apery\":"@ + json_nums(s.apery_set@) + ",\"c1\":"@ + json_ints(r.c1@)
}

/// The JSON object of one row: the slice, the invariants, the Wilf
/// quotient and `1/e` as given, and the generators, pseudo-Frobenius
/// numbers, Apéry set and lattice point.
#[verifier::opaque]
pub open spec fn json_row_text(r: Listed) -> Seq<char> {
    "{"@ + json_row_a(r) + json_row_b(r) + json_row_c(r) + "}"@
}

/// Appends `"name":n`.
fn push_field(out: &mut String, name: &str, n: usize)
    ensures
        final(out)@ == old(out)@ + field(name@, n as nat),
{
    out.append("\"");
    out.append(name);
    out.append("\":");
    push_usize(&mut *out, n);
    proof {
        reveal(field);
        assert(final(out)@ =~= old(out)@ + field(name@, n as nat));
    }
}

/// Appends `,"name":n`.
fn push_next_field(out: &mut String, name: &str, n: usize)
    ensures
        final(out)@ == old(out)@ + ","@ + field(name@, n as nat),
{
    out.append(",");
    push_field(&mut *out, name, n);
    proof {
        assert(final(out)@ =~= old(out)@ + ","@ + field(name@, n as nat));
    }
}

/// Appends [`json_row_a`].
fn push_json_row_a(out: &mut String, r: &Listed)
    ensures
        final(out)@ == old(out)@ + json_row_a(*r),
{
    let s = &r.sg;
    let ghost start = out@;
    push_field(&mut *out, "g", r.g);
    let ghost mut acc = field("g"@, r.g as nat);
    push_next_field(&mut *out, "m", r.m);
    proof {
        acc = acc + ","@ + field("m"@, r.m as nat);
        assert(out@ =~= start + acc);
    }
    push_next_field(&mut *out, "q1", r.q1);
    proof {
        acc = acc + ","@ + field("q1"@, r.q1 as nat);
        assert(out@ =~= start + acc);
    }
    push_next_field(&mut *out, "f", s.f);
    proof {
        acc = acc + ","@ + field("f"@, r.sg.f as nat);
        assert(out@ =~= start + acc);
    }
    push_next_field(&mut *out, "es", s.es);
    proof {
        acc = acc + ","@ + field("es"@, r.sg.es as nat);
        assert(out@ =~= start + acc);
    }
    push_next_field(&mut *out, "e", s.e);
    proof {
        acc = acc + ","@ + field("e"@, r.sg.e as nat);
        assert(out@ =~= start + acc);
    }
    push_next_field(&mut *out, "sigma", s.sigma);
    proof {
        acc = acc + ","@ + field("sigma"@, r.sg.sigma as nat);
        assert(out@ =~= start + acc);
    }
    push_next_field(&mut *out, "rl", s.rl);
    proof {
        acc = acc + ","@ + field("rl"@, r.sg.rl as nat);
        assert(out@ =~= start + acc);
    }
    push_next_field(&mut *out, "r", s.r);
    proof {
        acc = acc + ","@ + field("r"@, r.sg.r as nat);
        assert(out@ =~= start + acc);
    }
    push_next_field(&mut *out, "ra", s.ra);
    proof {
        acc = acc + ","@ + field("ra"@, r.sg.ra as nat);
        assert(out@ =~= start + acc);
    }
    push_next_field(&mut *out, "fg", s.fg);
    proof {
        acc = acc + ","@ + field("fg"@, r.sg.fg as nat);
        assert(out@ =~= start + acc);
    }
    push_next_field(&mut *out, "type", s.t);
    proof {
        acc = acc + ","@ + field("type"@, r.sg.t as nat);
        assert(out@ =~= start + acc);
    }
}

/// Appends [`json_row_b`].
fn push_json_row_b(out: &mut String, r: &Listed)
    requires
        r.sg.wf(),
    ensures
        final(out)@ == old(out)@ + json_row_b(*r),
{
    let s = &r.sg;
    out.append(",\"sym\":");
    push_bool(&mut *out, s.is_symmetric);
    out.append(",\"asym\":");
    push_bool(&mut *out, s.is_almost_symmetric);
    push_next_field(&mut *out, "level", s.level);
    out.append(",\"wilf\":");
    out.append(r.wilf6.as_str());
    out.append(",\"inv_e\":");
    out.append(r.inv_e6.as_str());
    push_next_field(&mut *out, "max_gen", s.max_gen);
    let rho = s.rho();
    push_next_field(&mut *out, "rho", rho);
    proof {
        assert(final(out)@ =~= old(out)@ + json_row_b(*r));
    }
}

/// Appends [`json_row_c`].
fn push_json_row_c(out: &mut String, r: &Listed)
    requires
        r.sg.wf(),
    ensures
        final(out)@ == old(out)@ + json_row_c(*r),
{
    let s = &r.sg;
    out.append(",\"deep\":");
    push_bool(&mut *out, s.deep);
    out.append(",\"v_in_s\":");
    let vins = s.v_in_s();
    push_bool(&mut *out, vins);
    out.append(",\"gen\":");
    push_json_nums(&mut *out, &s.gen_set);
    out.append(",\"pf\":");
    push_json_nums(&mut *out, &s.pf_set);
    out.append(",\"apery\":");
    push_json_nums(&mut *out, &s.apery_set);
    out.append(",\"c1\":");
    push_json_ints(&mut *out, &r.c1);
    proof {
        assert(final(out)@ =~= old(out)@ + json_row_c(*r));
    }
}

/// Appends the JSON object of one row.
fn push_json_row(out: &mut String, r: &Listed)
    requires
        r.sg.wf(),
    ensures
        final(out)@ == old(out)@ + json_row_text(*r),
{
    out.append("{");
    push_json_row_a(&mut *out, r);
    push_json_row_b(&mut *out, r);
    push_json_row_c(&mut *out, r);
    out.append("}");
    proof {
        reveal(json_row_text);
        assert(final(out)@ =~= old(out)@ + json_row_text(*r));
    }
}

/// Appends one entry of the level/μ counts.
fn push_lm_row(out: &mut String, e: ((usize, usize, usize, usize), usize))
    ensures
        final(out)@ == old(out)@ + lm_row_text(e),
{
    out.append("{");
    push_field(&mut *out, "g", e.0.0);
    push_next_field(&mut *out, "l", e.0.1);
    push_next_field(&mut *out, "m", e.0.2);
    push_next_field(&mut *out, "mu", e.0.3);
    push_next_field(&mut *out, "n", e.1);
    out.append("}");
    proof {
        assert(final(out)@ =~= old(out)@ + lm_row_text(e));
    }
}

/// A comma after every item but the last.
pub open spec fn comma_unless_last(k: int, total: int) -> Seq<char> {
    if k + 1 < total {
        ","@
    } else {
        Seq::empty()
    }
}

/// The first `k` rows of the JSON, in the order `ord`.
pub open spec fn json_body(rows: Seq<Listed>, ord: Seq<usize>, k: int) -> Seq<char>
    decreases k,
{
    if k <= 0 {
        Seq::empty()
    } else {
        json_body(rows, ord, k - 1) + json_row_text(rows[ord[k - 1] as int]) + comma_unless_last(k - 1, ord.len() as int)
            + "\n"@
    }
}

/// One entry of the level/μ counts.
pub open spec fn lm_row_text(e: ((usize, usize, usize, usize), usize)) -> Seq<char> {
    "{"@ + field("g"@, e.0.0 as nat) + ","@ + field("l"@, e.0.1 as nat) + ","@ + field("m"@, e.0.2 as nat) + ","@
        + field("mu"@, e.0.3 as nat) + ","@ + field("n"@, e.1 as nat) + "}"@
}

/// The first `k` entries of the level/μ counts.
pub open spec fn lm_body(v: Seq<((usize, usize, usize, usize), usize)>, k: int) -> Seq<char>
    decreases k,
{
    if k <= 0 {
        Seq::empty()
    } else {
        lm_body(v, k - 1) + lm_row_text(v[k - 1]) + comma_unless_last(k - 1, v.len() as int) + "\n"@
    }
}

/// The JSON document: `gmax`, the rows in the order `ord` and the level/μ
/// counts `lm`.
pub open spec fn json_page(
    gmax: nat,
    rows: Seq<Listed>,
    ord: Seq<usize>,
    lm: Seq<((usize, usize, usize, usize), usize)>,
) -> Seq<char> {
    "{\"gmax\":"@ + dec(gmax) + ",\"semigroups\":[\n"@ + json_body(rows, ord, ord.len() as int)
        + "],\n\"level_mu_counts\":[\n"@ + lm_body(lm, lm.len() as int) + "]}\n"@
}

/// The JSON document with the rows in the order `ord` and the counts `lm`.
pub fn list_json(
    gmax: usize,
    rows: &[Listed],
    ord: &[usize],
    lm: &[((usize, usize, usize, usize), usize)],
) -> (json: String)
    requires
        forall|k: int| 0 <= k < rows@.len() ==> (#[trigger] rows@[k]).sg.wf(),
        forall|i: int| 0 <= i < ord@.len() ==> #[trigger] ord@[i] < rows@.len(),
    ensures
        json@ == json_page(gmax as nat, rows@, ord@, lm@),
{
    let mut out = String::new();
    out.append("{\"gmax\":");
    push_usize(&mut out, gmax);
    out.append(",\"semigroups\":[\n");
    let ghost start = out@;
    let total = ord.len();
    let mut k: usize = 0;
    proof {
        assert(start =~= start + json_body(rows@, ord@, 0));
    }
    while k < total
        invariant
            total == ord@.len(),
            k <= total,
            forall|j: int| 0 <= j < rows@.len() ==> (#[trigger] rows@[j]).sg.wf(),
            forall|i: int| 0 <= i < ord@.len() ==> #[trigger] ord@[i] < rows@.len(),
            out@ == start + json_body(rows@, ord@, k as int),
        decreases total - k,
    {
        push_json_row(&mut out, &rows[ord[k]]);
        if k + 1 < total {
            out.append(",");
        }
        out.append("\n");
        proof {
            assert(out@ =~= start + json_body(rows@, ord@, k + 1));
        }
        k = k + 1;
    }
    out.append("],\n\"level_mu_counts\":[\n");
    let ghost mid = out@;
    let lm_total = lm.len();
    let mut i: usize = 0;
    proof {
        assert(mid =~= mid + lm_body(lm@, 0));
    }
    while i < lm_total
        invariant
            lm_total == lm@.len(),
            i <= lm_total,
            out@ == mid + lm_body(lm@, i as int),
        decreases lm_total - i,
    {
        push_lm_row(&mut out, lm[i]);
        if i + 1 < lm_total {
            out.append(",");
        }
        out.append("\n");
        proof {
            assert(out@ =~= mid + lm_body(lm@, i + 1));
        }
        i = i + 1;
    }
    out.append("]}\n");
    proof {
        assert(out@ =~= json_page(gmax as nat, rows@, ord@, lm@));
    }
    out
}

/// The JSON twin of the list page: the rows in the same order, with the
/// generators, pseudo-Frobenius numbers, Apéry set and lattice point, and
/// the number of semigroups for each `(g, level, m, μ)`.
pub fn build_list_json(gmax: usize, rows: &[Listed]) -> (json: String)
    requires
        forall|k: int| 0 <= k < rows@.len() ==> (#[trigger] rows@[k]).sg.wf(),
    ensures
        exists|ord: Seq<usize>, lm: Seq<((usize, usize, usize, usize), usize)>|
            sorting_order(rows@, ord) && level_mu_of(rows@, lm) && json@ == json_page(gmax as nat, rows@, ord, lm),
{
    let ord = sort_order(rows);
    let lm = level_mu_counts(rows);
    let json = list_json(gmax, rows, ord.as_slice(), lm.as_slice());
    proof {
        assert(sorting_order(rows@, ord@) && level_mu_of(rows@, lm@) && json@ == json_page(gmax as nat, rows@, ord@, lm@));
    }
    json
}

} // verus!
