//! Statistics over the semigroups of one genus, as enumerated slice by
//! slice: how many there are, how many are symmetric or have one reflected
//! gap, where the Frobenius number lies against the multiplicity, and the
//! distributions of `m`, `e`, `t` and `r`.
use vstd::prelude::*;
use crate::generated::seq_has;
use crate::inspect::vec_contains;
use crate::semigroup::Semigroup;

verus! {

/// One enumerated semigroup: the multiplicity of its slice, its lattice
/// point and the semigroup.
pub type Row = (usize, Seq<i64>, Semigroup);

/// A slice of one genus: `(m, q₁, count, lattice points with their semigroups)`.
pub type Slice = (usize, usize, usize, Vec<(Vec<i64>, Semigroup)>);

/// The rows of one slice.
pub open spec fn slice_rows(m: usize, lats: Seq<(Vec<i64>, Semigroup)>) -> Seq<Row> {
    Seq::new(lats.len(), |i: int| (m, lats[i].0@, lats[i].1))
}

/// The rows of all slices, in order.
pub open spec fn all_rows(data: Seq<Slice>) -> Seq<Row>
    decreases data.len(),
{
    if data.len() == 0 {
        Seq::empty()
    } else {
        all_rows(data.drop_last()) + slice_rows(data.last().0, data.last().3@)
    }
}

/// The number of rows with `p`.
pub open spec fn count_rows(rows: Seq<Row>, p: spec_fn(Row) -> bool) -> nat
    decreases rows.len(),
{
    if rows.len() == 0 {
        0
    } else {
        count_rows(rows.drop_last(), p) + if p(rows.last()) { 1nat } else { 0nat }
    }
}

/// Where `f` lies against `m`: 0 below `m`, 1 below `2m`, 2 below `3m`, else 3.
pub open spec fn f_bucket(s: Semigroup) -> int {
    if s.f < s.m { 0 } else if s.f < 2 * s.m { 1 } else if s.f < 3 * s.m { 2 } else { 3 }
}

/// The lattice point starts with 0: `c_{1,1} = 0`.
pub open spec fn zero_pred() -> spec_fn(Row) -> bool {
    |r: Row| r.1.len() > 0 && r.1[0] == 0
}

/// `w₁` is a minimal generator.
pub open spec fn w1gen_pred() -> spec_fn(Row) -> bool {
    |r: Row| seq_has(r.2.gen_set@, r.2.apery_set@[1] as int)
}

/// Symmetric: `g = σ`.
pub open spec fn sym_pred() -> spec_fn(Row) -> bool {
    |r: Row| r.2.g == r.2.sigma
}

/// Exactly one reflected gap.
pub open spec fn one_reflected_pred() -> spec_fn(Row) -> bool {
    |r: Row| r.2.r == 1
}

/// The largest generator is `f + m` and equals `2g + c`.
pub open spec fn top_gen_pred(g: int, c: int) -> spec_fn(Row) -> bool {
    |r: Row| r.2.max_gen == r.2.f + r.2.m && r.2.f + r.2.m == 2 * g + c
}

/// `f` lies in bucket `b`.
pub open spec fn bucket_pred(b: int) -> spec_fn(Row) -> bool {
    |r: Row| f_bucket(r.2) == b
}

/// The slice multiplicity is `k`.
pub open spec fn m_pred(k: int) -> spec_fn(Row) -> bool {
    |r: Row| r.0 == k
}

/// The embedding dimension is `k`.
pub open spec fn e_pred(k: int) -> spec_fn(Row) -> bool {
    |r: Row| r.2.e == k
}

/// The type is `k`.
pub open spec fn t_pred(k: int) -> spec_fn(Row) -> bool {
    |r: Row| r.2.t == k
}

/// The number of reflected gaps is `k`.
pub open spec fn r_pred(k: int) -> spec_fn(Row) -> bool {
    |r: Row| r.2.r == k
}

/// Counts over the semigroups of one genus.
pub struct GenusTally {
    /// Number of semigroups.
    pub total: usize,
    /// Number with `c_{1,1} = 0`.
    pub zero: usize,
    /// Number whose `w₁` is a minimal generator.
    pub w1gen: usize,
    /// Number of symmetric semigroups.
    pub sym: usize,
    /// Number with exactly one reflected gap.
    pub asym: usize,
    /// Number whose largest generator is `f + m = 2g + 1`.
    pub ae_fm_2g_plus_1: usize,
    /// Number whose largest generator is `f + m = 2g`.
    pub ae_fm_2g: usize,
    /// Counts by where `f` lies: `f < m`, `m < f < 2m`, `2m < f < 3m`, `3m < f`.
    pub f_vs_m: Vec<usize>,
    /// Counts by multiplicity, for `m < cols`.
    pub by_m: Vec<usize>,
    /// Counts by embedding dimension, for `e < cols`.
    pub by_e: Vec<usize>,
    /// Counts by type, for `t < cols`.
    pub by_t: Vec<usize>,
    /// Counts by number of reflected gaps, for `r < cols`.
    pub by_r: Vec<usize>,
}

/// `v` holds, for each `k < len`, the number of rows with `p(k)`.
pub open spec fn counts_by(v: Seq<usize>, len: int, rows: Seq<Row>, p: spec_fn(int) -> spec_fn(Row) -> bool) -> bool {
    &&& v.len() == len
    &&& forall|k: int| 0 <= k < len ==> #[trigger] v[k] == count_rows(rows, p(k))
}

/// The tally describes `rows` for genus `g` with `cols` columns.
pub open spec fn tally_of(t: GenusTally, rows: Seq<Row>, g: int, cols: int) -> bool {
    &&& t.total == rows.len()
    &&& t.zero == count_rows(rows, zero_pred())
    &&& t.w1gen == count_rows(rows, w1gen_pred())
    &&& t.sym == count_rows(rows, sym_pred())
    &&& t.asym == count_rows(rows, one_reflected_pred())
    &&& t.ae_fm_2g_plus_1 == count_rows(rows, top_gen_pred(g, 1))
    &&& t.ae_fm_2g == count_rows(rows, top_gen_pred(g, 0))
    &&& counts_by(t.f_vs_m@, 4, rows, |b: int| bucket_pred(b))
    &&& counts_by(t.by_m@, cols, rows, |k: int| m_pred(k))
    &&& counts_by(t.by_e@, cols, rows, |k: int| e_pred(k))
    &&& counts_by(t.by_t@, cols, rows, |k: int| t_pred(k))
    &&& counts_by(t.by_r@, cols, rows, |k: int| r_pred(k))
}

/// A count never exceeds the number of rows.
proof fn lemma_count_rows_le(rows: Seq<Row>, p: spec_fn(Row) -> bool)
    ensures
        count_rows(rows, p) <= rows.len(),
    decreases rows.len(),
{
    if rows.len() > 0 {
        lemma_count_rows_le(rows.drop_last(), p);
    }
}

/// A vector of `len` zeros.
fn zeros(len: usize) -> (v: Vec<usize>)
    ensures
        v@.len() == len,
        forall|k: int| 0 <= k < len ==> #[trigger] v@[k] == 0,
{
    let mut v: Vec<usize> = Vec::new();
    let mut i: usize = 0;
    while i < len
        invariant
            i <= len,
            v@.len() == i,
            forall|k: int| 0 <= k < i ==> #[trigger] v@[k] == 0,
        decreases len - i,
    {
        v.push(0);
        i = i + 1;
    }
    v
}

/// Adds one to entry `k` when `k < len`.
fn bump(v: &mut Vec<usize>, k: usize)
    requires
        forall|i: int| 0 <= i < old(v)@.len() ==> #[trigger] old(v)@[i] < usize::MAX,
    ensures
        final(v)@.len() == old(v)@.len(),
        forall|i: int| 0 <= i < old(v)@.len() ==> #[trigger] final(v)@[i] == old(v)@[i] + if i == k { 1int } else { 0int },
{
    if k < v.len() {
        let c = v[k];
        v.set(k, c + 1);
    }
}

/// Counts one more row.
fn add_row(t: &mut GenusTally, g: usize, cols: usize, m: usize, pt: &Vec<i64>, sg: &Semigroup, Ghost(rows): Ghost<Seq<Row>>)
    requires
        tally_of(*old(t), rows, g as int, cols as int),
        rows.len() < usize::MAX,
        sg.wf(),
        sg.m >= 2,
        sg.g == g,
        2 * g + 1 <= usize::MAX,
    ensures
        tally_of(*final(t), rows.push((m, pt@, *sg)), g as int, cols as int),
{
    let ghost row: Row = (m, pt@, *sg);
    let ghost nrows = rows.push(row);
    proof {
        assert(nrows.drop_last() =~= rows);
        assert(nrows.last() == row);
        lemma_count_rows_le(rows, zero_pred());
        lemma_count_rows_le(rows, w1gen_pred());
        lemma_count_rows_le(rows, sym_pred());
        lemma_count_rows_le(rows, one_reflected_pred());
        lemma_count_rows_le(rows, top_gen_pred(g as int, 1));
        lemma_count_rows_le(rows, top_gen_pred(g as int, 0));
        assert forall|b: int| 0 <= b < 4 implies #[trigger] t.f_vs_m@[b] < usize::MAX by {
            lemma_count_rows_le(rows, bucket_pred(b));
        }
        assert forall|k: int| 0 <= k < cols implies #[trigger] t.by_m@[k] < usize::MAX by {
            lemma_count_rows_le(rows, m_pred(k));
        }
        assert forall|k: int| 0 <= k < cols implies #[trigger] t.by_e@[k] < usize::MAX by {
            lemma_count_rows_le(rows, e_pred(k));
        }
        assert forall|k: int| 0 <= k < cols implies #[trigger] t.by_t@[k] < usize::MAX by {
            lemma_count_rows_le(rows, t_pred(k));
        }
        assert forall|k: int| 0 <= k < cols implies #[trigger] t.by_r@[k] < usize::MAX by {
            lemma_count_rows_le(rows, r_pred(k));
        }
        assert(3 * sg.m <= usize::MAX) by (nonlinear_arith)
            requires 4 * (sg.m * (sg.f + sg.m)) <= usize::MAX, sg.m >= 1;
        assert(sg.f + sg.m <= usize::MAX) by (nonlinear_arith)
            requires 4 * (sg.m * (sg.f + sg.m)) <= usize::MAX, sg.m >= 1, sg.f >= 0;
    }
    t.total = t.total + 1;
    if pt.len() > 0 && pt[0] == 0 {
        t.zero = t.zero + 1;
    }
    if vec_contains(&sg.gen_set, sg.apery_set[1]) {
        t.w1gen = t.w1gen + 1;
    }
    if sg.is_symmetric() {
        t.sym = t.sym + 1;
    }
    if sg.r == 1 {
        t.asym = t.asym + 1;
    }
    if sg.max_gen == sg.f + sg.m {
        let fm = sg.f + sg.m;
        if fm == 2 * g + 1 {
            proof {
                crate::identities::lemma_reflected_from_top(*sg);
                assert(sg.r == sg.m - 2);
            }
            t.ae_fm_2g_plus_1 = t.ae_fm_2g_plus_1 + 1;
        } else if fm == 2 * g {
            proof {
                crate::identities::lemma_reflected_from_top(*sg);
                assert(sg.r == sg.m - 1);
            }
            t.ae_fm_2g = t.ae_fm_2g + 1;
        }
    }
    let bucket: usize = if sg.f < sg.m {
        0
    } else if sg.f < 2 * sg.m {
        1
    } else if sg.f < 3 * sg.m {
        2
    } else {
        3
    };
    bump(&mut t.f_vs_m, bucket);
    bump(&mut t.by_m, m);
    bump(&mut t.by_e, sg.e);
    bump(&mut t.by_t, sg.t);
    bump(&mut t.by_r, sg.r);
    proof {
        assert(bucket == f_bucket(*sg));
        assert forall|b: int| 0 <= b < 4 implies #[trigger] t.f_vs_m@[b] == count_rows(nrows, bucket_pred(b)) by {}
        assert forall|k: int| 0 <= k < cols implies #[trigger] t.by_m@[k] == count_rows(nrows, m_pred(k)) by {}
        assert forall|k: int| 0 <= k < cols implies #[trigger] t.by_e@[k] == count_rows(nrows, e_pred(k)) by {}
        assert forall|k: int| 0 <= k < cols implies #[trigger] t.by_t@[k] == count_rows(nrows, t_pred(k)) by {}
        assert forall|k: int| 0 <= k < cols implies #[trigger] t.by_r@[k] == count_rows(nrows, r_pred(k)) by {}
    }
}

/// The statistics of one genus `g` over all its enumerated slices, with the
/// distributions cut at `cols` columns. Whenever the largest generator is
/// `f + m = 2g + 1` the semigroup has `m − 2` reflected gaps, and whenever
/// it is `f + m = 2g` it has `m − 1` (see
/// [`crate::identities::lemma_reflected_from_top`]).
pub fn tally_genus(g: usize, data: &Vec<Slice>, cols: usize) -> (t: GenusTally)
    requires
        all_rows(data@).len() < usize::MAX,
        forall|r: Row| all_rows(data@).contains(r) ==> r.2.wf() && r.2.m >= 2 && r.2.g == g,
        2 * g + 1 <= usize::MAX,
    ensures
        tally_of(t, all_rows(data@), g as int, cols as int),
{
    let mut t = GenusTally {
        total: 0,
        zero: 0,
        w1gen: 0,
        sym: 0,
        asym: 0,
        ae_fm_2g_plus_1: 0,
        ae_fm_2g: 0,
        f_vs_m: zeros(4),
        by_m: zeros(cols),
        by_e: zeros(cols),
        by_t: zeros(cols),
        by_r: zeros(cols),
    };
    proof {
        assert(all_rows(data@.subrange(0, 0)) == Seq::<Row>::empty());
    }
    let mut i: usize = 0;
    while i < data.len()
        invariant
            i <= data@.len(),
            all_rows(data@).len() < usize::MAX,
            forall|r: Row| all_rows(data@).contains(r) ==> r.2.wf() && r.2.m >= 2 && r.2.g == g,
            2 * g + 1 <= usize::MAX,
            tally_of(t, all_rows(data@.subrange(0, i as int)), g as int, cols as int),
        decreases data@.len() - i,
    {
        let m = data[i].0;
        let lats = &data[i].3;
        let ghost before = all_rows(data@.subrange(0, i as int));
        proof {
            lemma_all_rows_prefix(data@, i as int);
            lemma_all_rows_sub(data@, i + 1);
        }
        let mut j: usize = 0;
        proof {
            assert(slice_rows(m, lats@).subrange(0, 0) =~= Seq::<Row>::empty());
            assert(before + slice_rows(m, lats@).subrange(0, 0) =~= before);
        }
        while j < lats.len()
            invariant
                i < data@.len(),
                m == data@[i as int].0,
                lats@ == data@[i as int].3@,
                j <= lats@.len(),
                all_rows(data@).len() < usize::MAX,
                forall|r: Row| all_rows(data@).contains(r) ==> r.2.wf() && r.2.m >= 2 && r.2.g == g,
                2 * g + 1 <= usize::MAX,
                before == all_rows(data@.subrange(0, i as int)),
                all_rows(data@.subrange(0, i + 1)) == before + slice_rows(m, lats@),
                before.len() + lats@.len() <= all_rows(data@).len(),
                tally_of(t, before + slice_rows(m, lats@).subrange(0, j as int), g as int, cols as int),
            decreases lats@.len() - j,
        {
            let ghost cur = before + slice_rows(m, lats@).subrange(0, j as int);
            let ghost row: Row = (m, lats@[j as int].0@, lats@[j as int].1);
            proof {
                lemma_all_rows_prefix(data@, data@.len() as int);
                assert(data@.subrange(0, data@.len() as int) =~= data@);
                lemma_all_rows_sub(data@, i + 1);
                assert(all_rows(data@.subrange(0, i + 1)).contains(row) ==> all_rows(data@).contains(row));
                assert((before + slice_rows(m, lats@))[before.len() + j] == row);
                assert(all_rows(data@.subrange(0, i + 1)).contains(row));
            }
            add_row(&mut t, g, cols, m, &lats[j].0, &lats[j].1, Ghost(cur));
            proof {
                assert(cur.push(row) =~= before + slice_rows(m, lats@).subrange(0, j + 1));
            }
            j = j + 1;
        }
        proof {
            assert(slice_rows(m, lats@).subrange(0, lats@.len() as int) =~= slice_rows(m, lats@));
        }
        i = i + 1;
    }
    proof {
        assert(data@.subrange(0, data@.len() as int) =~= data@);
    }
    t
}

/// The rows of the first `i + 1` slices extend those of the first `i`.
proof fn lemma_all_rows_prefix(data: Seq<Slice>, i: int)
    requires
        0 <= i < data.len() || (0 <= i && i == data.len()),
    ensures
        i < data.len() ==> all_rows(data.subrange(0, i + 1))
            == all_rows(data.subrange(0, i)) + slice_rows(data[i].0, data[i].3@),
{
    if i < data.len() {
        let s = data.subrange(0, i + 1);
        assert(s.drop_last() =~= data.subrange(0, i));
    }
}

/// The rows of a prefix of the slices are a prefix of all rows.
proof fn lemma_all_rows_sub(data: Seq<Slice>, i: int)
    requires
        0 <= i <= data.len(),
    ensures
        all_rows(data).len() >= all_rows(data.subrange(0, i)).len(),
        forall|r: Row| all_rows(data.subrange(0, i)).contains(r) ==> all_rows(data).contains(r),
    decreases data.len() - i,
{
    if i < data.len() {
        lemma_all_rows_sub(data, i + 1);
        lemma_all_rows_prefix(data, i);
        let a = all_rows(data.subrange(0, i));
        let b = all_rows(data.subrange(0, i + 1));
        assert forall|r: Row| a.contains(r) implies b.contains(r) by {
            let k = choose|k: int| 0 <= k < a.len() && a[k] == r;
            assert(b[k] == r);
        }
    } else {
        assert(data.subrange(0, i) =~= data);
    }
}


/// The Frobenius number is never a positive multiple of `m`: `k·m` is an
/// element while `f` is not (or `f = 0` when `m = 1`). So the four buckets
/// `f < m`, `m < f < 2m`, `2m < f < 3m`, `3m < f` leave nothing out.
pub proof fn lemma_frobenius_not_multiple(s: Semigroup, k: int)
    requires
        s.wf(),
        k >= 1,
    ensures
        s.f != k * s.m,
{
    crate::identities::lemma_frobenius(s);
    if s.m >= 2 && s.f == k * s.m {
        crate::generated::lemma_gen_in(s.gen_set@, 0);
        crate::generated::lemma_closed_mul(s.gen_set@, k as nat, s.m as int);
    }
    if s.m == 1 {
        assert(k * s.m >= 1) by (nonlinear_arith) requires k >= 1, s.m == 1;
    }
}

/// Every row falls in exactly one bucket of `f` against `m`, so the bucket
/// counts add up to the number of rows.
pub proof fn lemma_buckets_partition(rows: Seq<Row>)
    ensures
        count_rows(rows, bucket_pred(0)) + count_rows(rows, bucket_pred(1)) + count_rows(rows, bucket_pred(2))
            + count_rows(rows, bucket_pred(3)) == rows.len(),
    decreases rows.len(),
{
    if rows.len() > 0 {
        lemma_buckets_partition(rows.drop_last());
        let b = f_bucket(rows.last().2);
        assert(0 <= b < 4);
    }
}

} // verus!
