//! Probes over the enumerated semigroups about the semigroup `S′ = S ∪ {f}`
//! that closes the Frobenius number of an almost-symmetric `S`: whether its
//! largest generator is `f′ + m′ = 2g′`, whether `f′ + m′` is a generator,
//! `S′` is deep and every `r_i(S′)` (`i ≠ μ′`) is 1 or 2, and the
//! distribution of the `r_i(S′)`.
use vstd::prelude::*;
use vstd::string::StringExecFns;
use crate::compute::{compute, compute_small, reduced};
use crate::gap_script::{joined, push_joined};
use crate::generated::{in_gen, seq_has};
use crate::inspect::{r_i_spec, vec_contains};
use crate::listing::Listed;
use crate::semigroup::{small_enough, Semigroup};
use crate::strata::{dec, digit_char, digit_str};
use crate::text::push_usize;

verus! {

/// `s2` is the semigroup generated by the generators of `s` together with
/// its Frobenius number, as [`compute`] builds it.
pub open spec fn is_closure(s: Semigroup, s2: Semigroup) -> bool {
    &&& s2.wf()
    &&& forall|x: int| #[trigger] s2.contains(x) == in_gen(reduced(s.gen_set@.push(s.f)), x)
}

/// The numbers that go into the closure fit the semigroup computation.
pub open spec fn closable(s: Semigroup) -> bool {
    &&& s.f >= 1
    &&& small_enough(s.f as int)
    &&& forall|k: int| 0 <= k < s.gen_set@.len() ==> small_enough(#[trigger] s.gen_set@[k] as int)
}

/// The semigroup `S ∪ {f}`: generated by the generators of `S` and `f`.
pub fn closure(sg: &Semigroup) -> (s2: Semigroup)
    requires
        sg.wf(),
        closable(*sg),
    ensures
        is_closure(*sg, s2),
{
    let mut gens: Vec<usize> = Vec::new();
    let mut k: usize = 0;
    while k < sg.gen_set.len()
        invariant
            sg.wf(),
            k <= sg.gen_set@.len(),
            gens@ == sg.gen_set@.subrange(0, k as int),
        decreases sg.gen_set@.len() - k,
    {
        gens.push(sg.gen_set[k]);
        proof {
            assert(sg.gen_set@.subrange(0, k + 1) =~= sg.gen_set@.subrange(0, k as int).push(sg.gen_set@[k as int]));
        }
        k = k + 1;
    }
    gens.push(sg.f);
    proof {
        assert(gens@ =~= sg.gen_set@.push(sg.f));
        assert forall|i: int| 0 <= i < gens@.len() implies #[trigger] gens@[i] >= 1 && small_enough(gens@[i] as int) by {
            if i < sg.gen_set@.len() {
                assert(gens@[i] == sg.gen_set@[i]);
                assert(sg.gen_set@[i] >= sg.gen_set@[0]) by {
                    if i > 0 {
                        assert(sg.gen_set@[0] < sg.gen_set@[i]);
                    }
                }
            }
        }
    }
    compute_small(gens.as_slice())
}

/// Why a closure misses `ae′ = f′ + m′ = 2g′`, or `None` when it does not.
pub open spec fn anomaly_label(s2: Semigroup) -> Option<Seq<char>> {
    let fm = s2.f + s2.m;
    if s2.max_gen == fm && fm == 2 * s2.g {
        None
    } else if s2.max_gen == fm && fm == 2 * s2.g + 1 {
        Some("2g+1"@)
    } else if s2.max_gen != fm {
        Some("ae<f+m"@)
    } else {
        Some("other"@)
    }
}

/// The report line of an anomaly.
pub open spec fn anomaly_line(s: Semigroup, s2: Semigroup, label: Seq<char>) -> Seq<char> {
    "  asym \u{27e8}"@ + joined(s.gen_set@, ", "@) + "\u{27e9} g="@ + dec(s.g as nat) + " f="@ + dec(s.f as nat)
        + " \u{2192} S\u{2032}=\u{27e8}"@ + joined(s2.gen_set@, ", "@) + "\u{27e9} g\u{2032}="@ + dec(s2.g as nat)
        + " f\u{2032}="@ + dec(s2.f as nat) + " m\u{2032}="@ + dec(s2.m as nat) + " ae\u{2032}="@ + dec(
        s2.max_gen as nat,
    ) + " f\u{2032}+m\u{2032}="@ + dec((s2.f + s2.m) as nat) + " ["@ + label + "]"@
}

/// The anomaly lines of the first `k` rows, `cl[k]` being the closure of
/// row `k`.
pub open spec fn anomaly_lines(rows: Seq<Listed>, cl: Seq<Semigroup>, k: int) -> Seq<Seq<char>>
    decreases k,
{
    if k <= 0 {
        Seq::empty()
    } else {
        let s = rows[k - 1].sg;
        let rest = anomaly_lines(rows, cl, k - 1);
        if s.r == 1 && anomaly_label(cl[k - 1]) is Some {
            rest.push(anomaly_line(s, cl[k - 1], anomaly_label(cl[k - 1])->Some_0))
        } else {
            rest
        }
    }
}

/// The number of rows among the first `k` with exactly one reflected gap.
pub open spec fn count_one_reflected(rows: Seq<Listed>, k: int) -> nat
    decreases k,
{
    if k <= 0 {
        0
    } else {
        count_one_reflected(rows, k - 1) + if rows[k - 1].sg.r == 1 { 1nat } else { 0nat }
    }
}

/// The views of some strings.
pub open spec fn views(v: Seq<String>) -> Seq<Seq<char>> {
    v.map_values(|t: String| t@)
}

/// The report line of an anomaly.
fn anomaly_line_exec(sg: &Semigroup, s2: &Semigroup, label: &str) -> (line: String)
    requires
        s2.wf(),
    ensures
        line@ == anomaly_line(*sg, *s2, label@),
{
    let mut out = String::new();
    out.append("  asym \u{27e8}");
    push_joined(&mut out, &sg.gen_set, ", ");
    out.append("\u{27e9} g=");
    push_usize(&mut out, sg.g);
    out.append(" f=");
    push_usize(&mut out, sg.f);
    out.append(" \u{2192} S\u{2032}=\u{27e8}");
    push_joined(&mut out, &s2.gen_set, ", ");
    let ghost mid = out@;
    out.append("\u{27e9} g\u{2032}=");
    push_usize(&mut out, s2.g);
    out.append(" f\u{2032}=");
    push_usize(&mut out, s2.f);
    out.append(" m\u{2032}=");
    push_usize(&mut out, s2.m);
    out.append(" ae\u{2032}=");
    push_usize(&mut out, s2.max_gen);
    proof {
        assert(s2.f + s2.m <= usize::MAX) by (nonlinear_arith)
            requires 4 * (s2.m * (s2.f + s2.m)) <= usize::MAX, s2.m >= 1;
    }
    out.append(" f\u{2032}+m\u{2032}=");
    push_usize(&mut out, s2.f + s2.m);
    out.append(" [");
    out.append(label);
    out.append("]");
    proof {
        assert(out@ =~= anomaly_line(*sg, *s2, label@));
    }
    out
}

/// The almost-symmetric semigroups (one reflected gap) whose closure
/// misses `ae′ = f′ + m′ = 2g′`: how many rows have one reflected gap, and
/// a line for each anomaly, with its kind (`2g+1`, `ae<f+m` or `other`).
pub fn asym_anomalies(rows: &[Listed]) -> (r: (usize, Vec<String>))
    requires
        forall|k: int| 0 <= k < rows@.len() ==> (#[trigger] rows@[k]).sg.wf(),
        forall|k: int| 0 <= k < rows@.len() && (#[trigger] rows@[k]).sg.r == 1 ==> closable(rows@[k].sg),
    ensures
        r.0 == count_one_reflected(rows@, rows@.len() as int),
        exists|cl: Seq<Semigroup>|
            cl.len() == rows@.len() && (forall|k: int| 0 <= k < rows@.len() && (#[trigger] rows@[k]).sg.r == 1
                ==> is_closure(rows@[k].sg, cl[k])) && views(r.1@) == anomaly_lines(rows@, cl, rows@.len() as int),
{
    let n = rows.len();
    let mut total: usize = 0;
    let mut lines: Vec<String> = Vec::new();
    let ghost mut cl: Seq<Semigroup> = Seq::empty();
    let mut k: usize = 0;
    proof {
        assert(views(lines@) =~= anomaly_lines(rows@, cl, 0));
    }
    while k < n
        invariant
            n == rows@.len(),
            k <= n,
            forall|j: int| 0 <= j < rows@.len() ==> (#[trigger] rows@[j]).sg.wf(),
            forall|j: int| 0 <= j < rows@.len() && (#[trigger] rows@[j]).sg.r == 1 ==> closable(rows@[j].sg),
            cl.len() == k,
            forall|j: int| 0 <= j < k && (#[trigger] rows@[j]).sg.r == 1 ==> is_closure(rows@[j].sg, cl[j]),
            total == count_one_reflected(rows@, k as int),
            total <= k,
            views(lines@) == anomaly_lines(rows@, cl, k as int),
        decreases n - k,
    {
        let sg = &rows[k].sg;
        if sg.r == 1 {
            total = total + 1;
            let s2 = closure(sg);
            proof {
                assert(s2.f + s2.m <= usize::MAX) by (nonlinear_arith)
                    requires 4 * (s2.m * (s2.f + s2.m)) <= usize::MAX, s2.m >= 1;
            }
            let fm = s2.f + s2.m;
            let g2 = s2.g as u128;
            let ghost old_lines = lines@;
            if !(s2.max_gen == fm && fm as u128 == 2 * g2) {
                let label = if s2.max_gen == fm && fm as u128 == 2 * g2 + 1 {
                    "2g+1"
                } else if s2.max_gen != fm {
                    "ae<f+m"
                } else {
                    "other"
                };
                let line = anomaly_line_exec(sg, &s2, label);
                lines.push(line);
                proof {
                    assert(anomaly_label(s2) == Some(label@));
                    assert(views(lines@) =~= views(old_lines).push(line@));
                }
            }
            proof {
                let old_cl = cl;
                cl = cl.push(s2);
                lemma_anomaly_lines_prefix(rows@, old_cl, cl, k as int);
                assert(cl[k as int] == s2);
                if anomaly_label(s2) is Some {
                    assert(views(lines@) == views(old_lines).push(
                        anomaly_line(rows@[k as int].sg, s2, anomaly_label(s2)->Some_0),
                    ));
                } else {
                    assert(lines@ == old_lines);
                }
                assert(views(lines@) == anomaly_lines(rows@, cl, k + 1));
            }
        } else {
            proof {
                let old_cl = cl;
                cl = cl.push(rows@[k as int].sg);
                lemma_anomaly_lines_prefix(rows@, old_cl, cl, k as int);
            }
        }
        k = k + 1;
    }
    (total, lines)
}

/// The anomaly lines of the first `k` rows depend on the first `k`
/// closures only.
proof fn lemma_anomaly_lines_prefix(rows: Seq<Listed>, a: Seq<Semigroup>, b: Seq<Semigroup>, k: int)
    requires
        0 <= k <= a.len(),
        k <= b.len(),
        forall|j: int| 0 <= j < k ==> a[j] == b[j],
    ensures
        anomaly_lines(rows, a, k) == anomaly_lines(rows, b, k),
    decreases k,
{
    if k > 0 {
        lemma_anomaly_lines_prefix(rows, a, b, k - 1);
    }
}

/// In the second probe: almost symmetric and deep.
pub open spec fn in_shift_filter(s: Semigroup) -> bool {
    s.is_almost_symmetric && s.deep
}

/// Every `r_i` of `s2` with `1 ≤ i < m`, `i ≠ μ`, is 1 or 2.
pub open spec fn ri_one_or_two(s2: Semigroup) -> bool {
    forall|i: int|
        1 <= i < s2.m && i != s2.mu ==> #[trigger] r_i_spec(s2.apery_set@, s2.m as int, s2.mu as int, i) == 1 || r_i_spec(
            s2.apery_set@,
            s2.m as int,
            s2.mu as int,
            i,
        ) == 2
}

/// The outcome for the closure `s2`, numbered in the order of the labels
/// `all_three_ok`, `apery_fail`, `f+m_not_gen`, `ri_fail`: 0 when `f′ + m′`
/// is a generator, `S′` is deep and every `r_i` is 1 or 2; else 2 when
/// `f′ + m′` is no generator, 1 when `S′` is not deep, 3 otherwise.
pub open spec fn shift_rank(s2: Semigroup) -> int {
    let fm_gen = seq_has(s2.gen_set@, s2.f + s2.m);
    if fm_gen && s2.deep && ri_one_or_two(s2) {
        0
    } else if !fm_gen {
        2
    } else if !s2.deep {
        1
    } else {
        3
    }
}

/// The bucket of a row of the filter: level below 3 first, then by
/// [`shift_rank`].
pub open spec fn shift_bucket(s: Semigroup, s2: Semigroup) -> int {
    (if s.level >= 3 { 4int } else { 0int }) + shift_rank(s2)
}

/// The number of rows among the first `k` in the filter whose bucket is `b`.
pub open spec fn shift_count(rows: Seq<Listed>, cl: Seq<Semigroup>, k: int, b: int) -> nat
    decreases k,
{
    if k <= 0 {
        0
    } else {
        shift_count(rows, cl, k - 1, b) + if in_shift_filter(rows[k - 1].sg) && shift_bucket(rows[k - 1].sg, cl[k - 1])
            == b { 1nat } else { 0nat }
    }
}

/// The number of rows among the first `k` in the filter.
pub open spec fn shift_total(rows: Seq<Listed>, k: int) -> nat
    decreases k,
{
    if k <= 0 {
        0
    } else {
        shift_total(rows, k - 1) + if in_shift_filter(rows[k - 1].sg) { 1nat } else { 0nat }
    }
}

/// The label of bucket `b`, padded to 14 characters.
pub open spec fn shift_label(b: int) -> Seq<char> {
    if b % 4 == 0 {
        "all_three_ok  "@
    } else if b % 4 == 1 {
        "apery_fail    "@
    } else if b % 4 == 2 {
        "f+m_not_gen   "@
    } else {
        "ri_fail       "@
    }
}

/// The report line of bucket `b` with `n` rows.
pub open spec fn shift_line(b: int, n: nat) -> Seq<char> {
    "  "@ + (if b >= 4 { "level>=3"@ } else { "level<3 "@ }) + "  "@ + shift_label(b) + "  "@ + dec(n)
}

/// The lines of the non-empty buckets among the first `b`.
pub open spec fn shift_lines(counts: Seq<usize>, b: int) -> Seq<Seq<char>>
    decreases b,
{
    if b <= 0 {
        Seq::empty()
    } else if counts[b - 1] > 0 {
        shift_lines(counts, b - 1).push(shift_line(b - 1, counts[b - 1] as nat))
    } else {
        shift_lines(counts, b - 1)
    }
}

/// The counts of the eight buckets over all rows.
pub open spec fn shift_counts(rows: Seq<Listed>, cl: Seq<Semigroup>, counts: Seq<usize>) -> bool {
    &&& counts.len() == 8
    &&& forall|b: int| 0 <= b < 8 ==> #[trigger] counts[b] == shift_count(rows, cl, rows.len() as int, b)
}

/// The shift counts of the first `k` rows depend on the first `k`
/// closures only.
proof fn lemma_shift_count_prefix(rows: Seq<Listed>, a: Seq<Semigroup>, c: Seq<Semigroup>, k: int, b: int)
    requires
        0 <= k <= a.len(),
        k <= c.len(),
        forall|j: int| 0 <= j < k ==> a[j] == c[j],
    ensures
        shift_count(rows, a, k, b) == shift_count(rows, c, k, b),
    decreases k,
{
    if k > 0 {
        lemma_shift_count_prefix(rows, a, c, k - 1, b);
    }
}

/// The rank of the closure `s2`.
fn shift_rank_exec(s2: &Semigroup) -> (r: usize)
    requires
        s2.wf(),
    ensures
        r == shift_rank(*s2),
{
    proof {
        assert(s2.f + s2.m <= usize::MAX) by (nonlinear_arith)
            requires 4 * (s2.m * (s2.f + s2.m)) <= usize::MAX, s2.m >= 1;
    }
    let fm_gen = vec_contains(&s2.gen_set, s2.f + s2.m);
    let mut ri_ok = true;
    let mut i: usize = 1;
    while i < s2.m
        invariant
            s2.wf(),
            1 <= i,
            i <= s2.m || s2.m == 0,
            ri_ok == forall|j: int|
                1 <= j < i && j != s2.mu ==> #[trigger] r_i_spec(s2.apery_set@, s2.m as int, s2.mu as int, j) == 1
                    || r_i_spec(s2.apery_set@, s2.m as int, s2.mu as int, j) == 2,
        decreases s2.m - i,
    {
        if i != s2.mu {
            let v = s2.r_i(i);
            if v != 1 && v != 2 {
                ri_ok = false;
            }
        }
        i = i + 1;
    }
    proof {
        if s2.m >= 1 {
            assert(ri_ok == ri_one_or_two(*s2));
        } else {
            assert(ri_one_or_two(*s2));
        }
    }
    if fm_gen && s2.deep && ri_ok {
        0
    } else if !fm_gen {
        2
    } else if !s2.deep {
        1
    } else {
        3
    }
}

/// The almost-symmetric deep semigroups: how many there are, and the
/// number of them in each bucket of (level ≥ 3, outcome for the closure),
/// one line per non-empty bucket in the order of the buckets.
pub fn asym_apery_shift(rows: &[Listed]) -> (r: (usize, Vec<String>))
    requires
        forall|k: int| 0 <= k < rows@.len() ==> (#[trigger] rows@[k]).sg.wf(),
        forall|k: int| 0 <= k < rows@.len() && in_shift_filter((#[trigger] rows@[k]).sg) ==> closable(rows@[k].sg),
    ensures
        r.0 == shift_total(rows@, rows@.len() as int),
        exists|cl: Seq<Semigroup>, counts: Seq<usize>|
            cl.len() == rows@.len() && (forall|k: int| 0 <= k < rows@.len() && in_shift_filter((#[trigger] rows@[k]).sg)
                ==> is_closure(rows@[k].sg, cl[k])) && shift_counts(rows@, cl, counts) && views(r.1@) == shift_lines(
                counts,
                8,
            ),
{
    let n = rows.len();
    let mut total: usize = 0;
    let mut counts: Vec<usize> = Vec::new();
    let mut b: usize = 0;
    while b < 8
        invariant
            b <= 8,
            counts@.len() == b,
            forall|j: int| 0 <= j < b ==> #[trigger] counts@[j] == 0,
        decreases 8 - b,
    {
        counts.push(0);
        b = b + 1;
    }
    let ghost mut cl: Seq<Semigroup> = Seq::empty();
    let mut k: usize = 0;
    while k < n
        invariant
            n == rows@.len(),
            k <= n,
            forall|j: int| 0 <= j < rows@.len() ==> (#[trigger] rows@[j]).sg.wf(),
            forall|j: int| 0 <= j < rows@.len() && in_shift_filter((#[trigger] rows@[j]).sg) ==> closable(rows@[j].sg),
            cl.len() == k,
            forall|j: int| 0 <= j < k && in_shift_filter((#[trigger] rows@[j]).sg) ==> is_closure(rows@[j].sg, cl[j]),
            total == shift_total(rows@, k as int),
            total <= k,
            counts@.len() == 8,
            forall|c: int| 0 <= c < 8 ==> #[trigger] counts@[c] == shift_count(rows@, cl, k as int, c),
            forall|c: int| 0 <= c < 8 ==> #[trigger] counts@[c] <= k,
        decreases n - k,
    {
        let sg = &rows[k].sg;
        let ghost old_cl = cl;
        let ghost old_counts = counts@;
        if sg.is_almost_symmetric && sg.deep {
            total = total + 1;
            let s2 = closure(sg);
            let rank = shift_rank_exec(&s2);
            let idx = if sg.level >= 3 { 4 + rank } else { rank };
            let c = counts[idx];
            counts.set(idx, c + 1);
            proof {
                cl = cl.push(s2);
                assert forall|c: int| 0 <= c < 8 implies #[trigger] counts@[c] == shift_count(rows@, cl, k + 1, c) by {
                    lemma_shift_count_prefix(rows@, old_cl, cl, k as int, c);
                    assert(cl[k as int] == s2);
                }
            }
        } else {
            proof {
                cl = cl.push(rows@[k as int].sg);
                assert forall|c: int| 0 <= c < 8 implies #[trigger] counts@[c] == shift_count(rows@, cl, k + 1, c) by {
                    lemma_shift_count_prefix(rows@, old_cl, cl, k as int, c);
                }
            }
        }
        k = k + 1;
    }
    let mut lines: Vec<String> = Vec::new();
    let mut b: usize = 0;
    proof {
        assert(views(lines@) =~= shift_lines(counts@, 0));
    }
    while b < 8
        invariant
            b <= 8,
            counts@.len() == 8,
            views(lines@) == shift_lines(counts@, b as int),
        decreases 8 - b,
    {
        if counts[b] > 0 {
            let mut line = String::new();
            line.append("  ");
            if b >= 4 {
                line.append("level>=3");
            } else {
                line.append("level<3 ");
            }
            line.append("  ");
            let m4 = b % 4;
            if m4 == 0 {
                line.append("all_three_ok  ");
            } else if m4 == 1 {
                line.append("apery_fail    ");
            } else if m4 == 2 {
                line.append("f+m_not_gen   ");
            } else {
                line.append("ri_fail       ");
            }
            line.append("  ");
            push_usize(&mut line, counts[b]);
            let ghost old_lines = lines@;
            proof {
                assert(line@ =~= shift_line(b as int, counts@[b as int] as nat));
            }
            lines.push(line);
            proof {
                assert(views(lines@) =~= views(old_lines).push(shift_line(b as int, counts@[b as int] as nat)));
            }
        }
        b = b + 1;
    }
    proof {
        assert(shift_counts(rows@, cl, counts@));
    }
    (total, lines)
}

/// In the third probe: almost symmetric, deep and of level at least 3.
pub open spec fn in_hist_filter(s: Semigroup) -> bool {
    s.is_almost_symmetric && s.deep && s.level >= 3
}

/// `r_1, …, r_{k−1}` of `s2`.
pub open spec fn ri_values(s2: Semigroup, k: int) -> Seq<int>
    decreases k,
{
    if k <= 1 {
        Seq::empty()
    } else {
        ri_values(s2, k - 1).push(r_i_spec(s2.apery_set@, s2.m as int, s2.mu as int, k - 1))
    }
}

/// The values `r_i(S′)`, `1 ≤ i < m′`, of the rows among the first `k` in
/// the filter, in order.
pub open spec fn hist_values(rows: Seq<Listed>, cl: Seq<Semigroup>, k: int) -> Seq<int>
    decreases k,
{
    if k <= 0 {
        Seq::empty()
    } else {
        hist_values(rows, cl, k - 1) + if in_hist_filter(rows[k - 1].sg) {
            ri_values(cl[k - 1], cl[k - 1].m as int)
        } else {
            Seq::empty()
        }
    }
}

/// The number of rows among the first `k` in the filter.
pub open spec fn hist_total(rows: Seq<Listed>, k: int) -> nat
    decreases k,
{
    if k <= 0 {
        0
    } else {
        hist_total(rows, k - 1) + if in_hist_filter(rows[k - 1].sg) { 1nat } else { 0nat }
    }
}

/// The number of times `v` occurs in `vals`.
pub open spec fn count_val(vals: Seq<int>, v: int) -> nat
    decreases vals.len(),
{
    if vals.len() == 0 {
        0
    } else {
        count_val(vals.drop_last(), v) + if vals.last() == v { 1nat } else { 0nat }
    }
}

/// `h` lists the values of `vals`, each once and increasing, with the
/// number of times it occurs.
pub open spec fn hist_of(vals: Seq<int>, h: Seq<(usize, u128)>) -> bool {
    &&& forall|i: int, j: int| 0 <= i < j < h.len() ==> (#[trigger] h[i]).0 < (#[trigger] h[j]).0
    &&& forall|i: int| 0 <= i < h.len() ==> #[trigger] h[i].1 == count_val(vals, h[i].0 as int) && h[i].1 > 0
    &&& forall|k: int| 0 <= k < vals.len() ==> exists|i: int| 0 <= i < h.len() && #[trigger] h[i].0 == #[trigger] vals[k]
}

/// A value that does not occur is counted 0 times.
proof fn lemma_count_val_zero(vals: Seq<int>, v: int)
    requires
        forall|k: int| 0 <= k < vals.len() ==> #[trigger] vals[k] != v,
    ensures
        count_val(vals, v) == 0,
    decreases vals.len(),
{
    if vals.len() > 0 {
        lemma_count_val_zero(vals.drop_last(), v);
    }
}

/// Counts are bounded by the length.
proof fn lemma_count_val_bound(vals: Seq<int>, v: int)
    ensures
        count_val(vals, v) <= vals.len(),
    decreases vals.len(),
{
    if vals.len() > 0 {
        lemma_count_val_bound(vals.drop_last(), v);
    }
}

/// Adds the value `v` to the histogram of `vals`.
fn hist_add(h: &mut Vec<(usize, u128)>, v: usize, Ghost(vals): Ghost<Seq<int>>)
    requires
        hist_of(vals, old(h)@),
        vals.len() < 0xffff_ffff_ffff_ffff_ffff_ffff_ffff_ffff,
    ensures
        hist_of(vals.push(v as int), final(h)@),
{
    let ghost post = vals.push(v as int);
    let ghost old_h = h@;
    proof {
        assert(post.drop_last() =~= vals);
        assert forall|i: int| 0 <= i < old_h.len() implies count_val(post, #[trigger] old_h[i].0 as int) == count_val(
            vals,
            old_h[i].0 as int,
        ) + if old_h[i].0 == v { 1nat } else { 0nat } by {}
    }
    let mut p: usize = 0;
    while p < h.len() && h[p].0 < v
        invariant
            p <= h@.len(),
            forall|i: int| 0 <= i < p ==> (#[trigger] h@[i]).0 < v,
        decreases h@.len() - p,
    {
        p = p + 1;
    }
    if p < h.len() && h[p].0 == v {
        let c = h[p].1;
        proof {
            lemma_count_val_bound(vals, v as int);
        }
        h.set(p, (v, c + 1));
        proof {
            assert forall|i: int, j: int| 0 <= i < j < h@.len() implies (#[trigger] h@[i]).0 < (#[trigger] h@[j]).0 by {
                assert(h@[i].0 == old_h[i].0 && h@[j].0 == old_h[j].0);
            }
            assert forall|i: int| 0 <= i < h@.len() implies #[trigger] h@[i].1 == count_val(post, h@[i].0 as int)
                && h@[i].1 > 0 by {
                if i != p {
                    assert(h@[i] == old_h[i]);
                    if i < p {
                        assert(old_h[i].0 < old_h[p as int].0);
                    } else {
                        assert(old_h[p as int].0 < old_h[i].0);
                    }
                }
            }
            assert forall|k: int| 0 <= k < post.len() implies exists|i: int| 0 <= i < h@.len() && #[trigger] h@[i].0
                == #[trigger] post[k] by {
                if k < vals.len() {
                    assert(post[k] == vals[k]);
                    let i = choose|i: int| 0 <= i < old_h.len() && #[trigger] old_h[i].0 == #[trigger] vals[k];
                    assert(h@[i].0 == old_h[i].0);
                } else {
                    assert(h@[p as int].0 == post[k]);
                }
            }
        }
    } else {
        proof {
            assert forall|k: int| 0 <= k < vals.len() implies #[trigger] vals[k] != v as int by {
                if vals[k] == v as int {
                    let i = choose|i: int| 0 <= i < old_h.len() && #[trigger] old_h[i].0 == #[trigger] vals[k];
                    if i < p {
                        assert(old_h[i].0 < v);
                    } else if i > p {
                        assert(old_h[p as int].0 < old_h[i].0);
                    }
                }
            }
            lemma_count_val_zero(vals, v as int);
        }
        h.insert(p, (v, 1));
        proof {
            assert(h@ == old_h.insert(p as int, (v, 1u128)));
            assert forall|i: int, j: int| 0 <= i < j < h@.len() implies (#[trigger] h@[i]).0 < (#[trigger] h@[j]).0 by {
                if j < p {
                    assert(h@[i] == old_h[i] && h@[j] == old_h[j]);
                } else if j == p {
                    assert(h@[i] == old_h[i]);
                } else if i > p {
                    assert(h@[i] == old_h[i - 1] && h@[j] == old_h[j - 1]);
                } else if i == p {
                    assert(h@[j] == old_h[j - 1]);
                    if j - 1 > p {
                        assert(old_h[p as int].0 < old_h[j - 1].0);
                    }
                } else {
                    assert(h@[i] == old_h[i] && h@[j] == old_h[j - 1]);
                }
            }
            assert forall|i: int| 0 <= i < h@.len() implies #[trigger] h@[i].1 == count_val(post, h@[i].0 as int)
                && h@[i].1 > 0 by {
                if i < p {
                    assert(h@[i] == old_h[i]);
                } else if i > p {
                    assert(h@[i] == old_h[i - 1]);
                    if i - 1 > p {
                        assert(old_h[p as int].0 < old_h[i - 1].0);
                    }
                }
            }
            assert forall|k: int| 0 <= k < post.len() implies exists|i: int| 0 <= i < h@.len() && #[trigger] h@[i].0
                == #[trigger] post[k] by {
                if k < vals.len() {
                    assert(post[k] == vals[k]);
                    let i = choose|i: int| 0 <= i < old_h.len() && #[trigger] old_h[i].0 == #[trigger] vals[k];
                    if i < p {
                        assert(h@[i].0 == old_h[i].0);
                    } else {
                        assert(h@[i + 1].0 == old_h[i].0);
                    }
                } else {
                    assert(h@[p as int].0 == post[k]);
                }
            }
        }
    }
}

/// Appends the decimal form of `n`.
fn push_u128(out: &mut String, n: u128)
    ensures
        final(out)@ == old(out)@ + dec(n as nat),
    decreases n,
{
    if n >= 10 {
        push_u128(out, n / 10);
    }
    let d: u128 = n % 10;
    out.append(digit_str(d as usize));
    proof {
        if n >= 10 {
            assert(old(out)@ + dec(n as nat) == old(out)@ + dec((n / 10) as nat) + seq![digit_char((n % 10) as int)]);
        }
    }
}

/// The report line of a histogram bar.
pub open spec fn hist_line(e: (usize, u128)) -> Seq<char> {
    "  r_i="@ + dec(e.0 as nat) + "  "@ + dec(e.1 as nat)
}

/// The histogram of the values `r_i(S′)`, `1 ≤ i < m′`, over the closures
/// of the almost-symmetric deep semigroups of level at least 3: how many
/// semigroups, how many values, and one line per value in increasing order
/// with the number of times it occurs.
pub fn asym_ri_hist(rows: &[Listed]) -> (r: (usize, u128, Vec<String>))
    requires
        forall|k: int| 0 <= k < rows@.len() ==> (#[trigger] rows@[k]).sg.wf(),
        forall|k: int| 0 <= k < rows@.len() && in_hist_filter((#[trigger] rows@[k]).sg) ==> closable(rows@[k].sg),
    ensures
        r.0 == hist_total(rows@, rows@.len() as int),
        exists|cl: Seq<Semigroup>, h: Seq<(usize, u128)>|
            cl.len() == rows@.len() && (forall|k: int| 0 <= k < rows@.len() && in_hist_filter((#[trigger] rows@[k]).sg)
                ==> is_closure(rows@[k].sg, cl[k])) && r.1 == hist_values(rows@, cl, rows@.len() as int).len()
                && hist_of(hist_values(rows@, cl, rows@.len() as int), h) && views(r.2@) == h.map_values(
                |e: (usize, u128)| hist_line(e),
            ),
{
    let n = rows.len();
    let mut total_s: usize = 0;
    let mut total_classes: u128 = 0;
    let mut h: Vec<(usize, u128)> = Vec::new();
    let ghost mut cl: Seq<Semigroup> = Seq::empty();
    let mut k: usize = 0;
    proof {
        assert(hist_values(rows@, cl, 0) =~= Seq::<int>::empty());
    }
    while k < n
        invariant
            n == rows@.len(),
            k <= n,
            forall|j: int| 0 <= j < rows@.len() ==> (#[trigger] rows@[j]).sg.wf(),
            forall|j: int| 0 <= j < rows@.len() && in_hist_filter((#[trigger] rows@[j]).sg) ==> closable(rows@[j].sg),
            cl.len() == k,
            forall|j: int| 0 <= j < k && in_hist_filter((#[trigger] rows@[j]).sg) ==> is_closure(rows@[j].sg, cl[j]),
            total_s == hist_total(rows@, k as int),
            total_s <= k,
            total_classes == hist_values(rows@, cl, k as int).len(),
            total_classes <= k * 0x1_0000_0000_0000_0000,
            hist_of(hist_values(rows@, cl, k as int), h@),
        decreases n - k,
    {
        let sg = &rows[k].sg;
        let ghost before = hist_values(rows@, cl, k as int);
        let ghost old_cl = cl;
        if sg.is_almost_symmetric && sg.deep && sg.level >= 3 {
            total_s = total_s + 1;
            let s2 = closure(sg);
            let mut i: usize = 1;
            let ghost base = total_classes;
            proof {
                assert(ri_values(s2, 1) =~= Seq::<int>::empty());
                assert(before + ri_values(s2, 1) =~= before);
            }
            while i < s2.m
                invariant
                    s2.wf(),
                    1 <= i,
                    i <= s2.m || s2.m == 0,
                    k < n,
                    base == before.len(),
                    base <= k * 0x1_0000_0000_0000_0000,
                    total_classes == (before + ri_values(s2, i as int)).len(),
                    total_classes == base + i - 1,
                    hist_of(before + ri_values(s2, i as int), h@),
                decreases s2.m - i,
            {
                let v = s2.r_i(i);
                let ghost vals = before + ri_values(s2, i as int);
                proof {
                    assert(total_classes < 0xffff_ffff_ffff_ffff_ffff_ffff_ffff_ffff) by (nonlinear_arith)
                        requires total_classes == base + i - 1, base <= k * 0x1_0000_0000_0000_0000, k < n,
                            n <= usize::MAX, i <= usize::MAX, usize::MAX < 0x1_0000_0000_0000_0000;
                }
                hist_add(&mut h, v, Ghost(vals));
                total_classes = total_classes + 1;
                proof {
                    assert(before + ri_values(s2, i + 1) =~= vals.push(v as int));
                }
                i = i + 1;
            }
            proof {
                let m2 = s2.m as int;
                cl = cl.push(s2);
                lemma_hist_values_prefix(rows@, old_cl, cl, k as int);
                assert(cl[k as int] == s2);
                if m2 >= 1 {
                    assert(i == m2);
                } else {
                    assert(ri_values(s2, m2) =~= ri_values(s2, 1));
                }
                assert(hist_values(rows@, cl, k + 1) =~= before + ri_values(s2, m2));
                assert(total_classes <= (k + 1) * 0x1_0000_0000_0000_0000) by (nonlinear_arith)
                    requires total_classes <= base + s2.m, base <= k * 0x1_0000_0000_0000_0000,
                        s2.m <= usize::MAX, usize::MAX < 0x1_0000_0000_0000_0000;
            }
        } else {
            proof {
                cl = cl.push(rows@[k as int].sg);
                lemma_hist_values_prefix(rows@, old_cl, cl, k as int);
                assert(hist_values(rows@, cl, k + 1) =~= before);
                assert(total_classes <= (k + 1) * 0x1_0000_0000_0000_0000) by (nonlinear_arith)
                    requires total_classes <= k * 0x1_0000_0000_0000_0000;
            }
        }
        k = k + 1;
    }
    let mut lines: Vec<String> = Vec::new();
    let mut j: usize = 0;
    while j < h.len()
        invariant
            j <= h@.len(),
            views(lines@) == h@.take(j as int).map_values(|e: (usize, u128)| hist_line(e)),
        decreases h@.len() - j,
    {
        let mut line = String::new();
        line.append("  r_i=");
        push_usize(&mut line, h[j].0);
        line.append("  ");
        push_u128(&mut line, h[j].1);
        let ghost old_lines = lines@;
        proof {
            assert(line@ =~= hist_line(h@[j as int]));
        }
        lines.push(line);
        proof {
            assert(views(lines@) =~= views(old_lines).push(hist_line(h@[j as int])));
            assert(h@.take(j + 1).map_values(|e: (usize, u128)| hist_line(e)) =~= h@.take(j as int).map_values(
                |e: (usize, u128)| hist_line(e),
            ).push(hist_line(h@[j as int])));
        }
        j = j + 1;
    }
    proof {
        assert(h@.take(h@.len() as int) =~= h@);
    }
    (total_s, total_classes, lines)
}

/// The histogram values of the first `k` rows depend on the first `k`
/// closures only.
proof fn lemma_hist_values_prefix(rows: Seq<Listed>, a: Seq<Semigroup>, c: Seq<Semigroup>, k: int)
    requires
        0 <= k <= a.len(),
        k <= c.len(),
        forall|j: int| 0 <= j < k ==> a[j] == c[j],
    ensures
        hist_values(rows, a, k) == hist_values(rows, c, k),
    decreases k,
{
    if k > 0 {
        lemma_hist_values_prefix(rows, a, c, k - 1);
    }
}

} // verus!
