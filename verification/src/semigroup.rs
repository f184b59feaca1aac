//! The [`Semigroup`] record: a numerical semigroup given by its minimal
//! generators and its Apéry set with respect to the multiplicity, together
//! with the invariants derived from them.
use vstd::prelude::*;
use crate::arith::{seq_sum, strictly_increasing};
use crate::generated::{count_upto, filter_upto, in_gen, in_gen_pred, is_atom, seq_has};

verus! {

/// The size condition on a semigroup's numbers: `4·m·(f + m)` fits in a
/// `usize`, so sums of Apéry elements, multiples up to `3f` and the like
/// never overflow.
pub open spec fn fits(m: int, f: int) -> bool {
    4 * (m * (f + m)) <= usize::MAX
}

/// The size condition on generator lists handed to the semigroup
/// computation: `4·n³` fits in a `usize` for every generator `n`.
pub open spec fn small_enough(n: int) -> bool {
    4 * (n * n * n) <= usize::MAX
}

/// All computed properties of a numerical semigroup S = ⟨`gen_set`⟩.
#[derive(Debug, Clone)]
pub struct Semigroup {
    /// Embedding dimension: number of minimal generators.
    pub e: usize,
    /// Frobenius number: the largest integer not in S (0 when S = ℕ).
    pub f: usize,
    /// Multiplicity: the smallest positive element of S.
    pub m: usize,
    /// Type: the number of pseudo-Frobenius numbers.
    pub t: usize,
    /// Number of reflected gaps: gaps `x < f` with `f − x` also a gap.
    pub r: usize,
    /// Number of small minimal generators, those below `f − m`.
    pub es: usize,
    /// Number of large gaps, those in `(f − m, f)`.
    pub rl: usize,
    /// The largest minimal generator.
    pub ae: usize,
    /// Number of Apéry elements `w ≥ m` with `w − m` a reflected gap.
    pub ra: usize,
    /// Number of fundamental gaps: gaps `x` with `2x` and `3x` in S (so every `kx`, `k ≥ 2`).
    pub fg: usize,
    /// Number of elements of S in `0..=f`.
    pub sigma: usize,
    /// Genus, by Selmer's formula `(Σ w − m(m−1)/2) / m`.
    pub g: usize,
    /// Largest minimal generator.
    pub max_gen: usize,
    /// Minimal generators in increasing order.
    pub gen_set: Vec<usize>,
    /// Apéry set with respect to `m`: `apery_set[i]` is the least element of S congruent to `i`.
    pub apery_set: Vec<usize>,
    /// Sum of the Apéry elements.
    pub apery_sum: usize,
    /// Pseudo-Frobenius numbers in increasing order.
    pub pf_set: Vec<usize>,
    /// `f mod m`.
    pub mu: usize,
    /// `f / m`.
    pub level: usize,
    /// S is symmetric: `t = 1`.
    pub is_symmetric: bool,
    /// S is almost symmetric: `f + t = 2g`.
    pub is_almost_symmetric: bool,
    /// Every Apéry element `w_i`, `0 < i < m`, exceeds `m + i`: `m+1, …, 2m−1` are gaps.
    pub deep: bool,
}

/// `w` is the least element of the monoid in residue class `r` modulo `m`.
pub open spec fn apery_min(gens: Seq<usize>, m: int, w: int, r: int) -> bool {
    &&& w % m == r
    &&& in_gen(gens, w)
    &&& forall|x: int| #[trigger] in_gen(gens, x) && x % m == r ==> x >= w
}

/// The data from which everything else is derived: strictly increasing
/// minimal generators starting with `m`, and the Apéry set.
pub open spec fn core_ok(m: int, f: int, gens: Seq<usize>, apery: Seq<usize>) -> bool {
    &&& 1 <= m
    &&& 0 <= f
    &&& fits(m, f)
    &&& gens.len() >= 1
    &&& gens[0] == m
    &&& strictly_increasing(gens)
    &&& forall|k: int| 0 <= k < gens.len() ==> is_atom(gens, #[trigger] gens[k] as int)
    &&& forall|x: int| #[trigger] is_atom(gens, x) ==> seq_has(gens, x)
    &&& apery.len() == m
    &&& forall|r: int| 0 <= r < m ==> apery_min(gens, m, #[trigger] apery[r] as int, r)
    &&& forall|r: int| 0 <= r < m ==> #[trigger] apery[r] <= f + m
    &&& (m == 1 ==> f == 0)
    &&& (m >= 2 ==> exists|r: int| 0 <= r < m && #[trigger] apery[r] == f + m)
}

/// Reflected gaps of the monoid with Frobenius number `f`: `0 ≤ x < f`
/// with `x` and `f − x` both gaps.
pub open spec fn reflected_pred(gens: Seq<usize>, f: int) -> spec_fn(int) -> bool {
    |x: int| 0 <= x < f && !in_gen(gens, x) && !in_gen(gens, f - x)
}

/// Pseudo-Frobenius numbers: gaps `x ≥ 0` with `x + g` an element for every generator `g`.
pub open spec fn pf_pred(gens: Seq<usize>) -> spec_fn(int) -> bool {
    |x: int| x >= 0 && !in_gen(gens, x) && forall|k: int| 0 <= k < gens.len() ==> in_gen(gens, x + #[trigger] gens[k])
}

/// Indices of generators below `f − m`.
pub open spec fn small_gen_pred(gens: Seq<usize>, m: int, f: int) -> spec_fn(int) -> bool {
    |k: int| gens[k] + m < f
}

/// Gaps in the window `(f − m, f)`.
pub open spec fn large_gap_pred(gens: Seq<usize>, m: int, f: int) -> spec_fn(int) -> bool {
    |x: int| f < x + m && !in_gen(gens, x)
}

/// Residues whose Apéry element `w` has `w ≥ m` and `w − m` a reflected gap.
pub open spec fn reflected_apery_pred(gens: Seq<usize>, apery: Seq<usize>, m: int, f: int) -> spec_fn(int) -> bool {
    |i: int| apery[i] >= m && reflected_pred(gens, f)(apery[i] - m)
}

/// Fundamental gaps: gaps whose double and triple are elements.
pub open spec fn fundamental_pred(gens: Seq<usize>) -> spec_fn(int) -> bool {
    |x: int| x >= 0 && !in_gen(gens, x) && in_gen(gens, 2 * x) && in_gen(gens, 3 * x)
}

/// Every Apéry element `w_i`, `0 < i < m`, exceeds `m + i`.
pub open spec fn deep_spec(apery: Seq<usize>, m: int) -> bool {
    forall|i: int| 0 < i < m ==> #[trigger] apery[i] > m + i
}

impl Semigroup {
    /// `x` belongs to S.
    pub open spec fn contains(&self, x: int) -> bool {
        in_gen(self.gen_set@, x)
    }

    /// The well-formedness of the record: the core data and every derived field.
    pub open spec fn wf(&self) -> bool {
        let m = self.m as int;
        let f = self.f as int;
        let gens = self.gen_set@;
        let apery = self.apery_set@;
        &&& core_ok(m, f, gens, apery)
        &&& self.e == gens.len()
        &&& self.max_gen == gens[gens.len() - 1]
        &&& self.ae == self.max_gen
        &&& self.apery_sum == seq_sum(apery)
        &&& self.g == (seq_sum(apery) - m * (m - 1) / 2) / m
        &&& self.sigma == count_upto(in_gen_pred(gens), f + 1)
        &&& self.mu == f % m
        &&& self.level == f / m
        &&& self.r == count_upto(reflected_pred(gens, f), f)
        &&& self.pf_set@ == filter_upto(pf_pred(gens), f + 1)
        &&& self.t == self.pf_set@.len()
        &&& self.es == count_upto(small_gen_pred(gens, m, f), gens.len() as int)
        &&& self.rl == count_upto(large_gap_pred(gens, m, f), f)
        &&& self.ra == count_upto(reflected_apery_pred(gens, apery, m, f), m)
        &&& self.fg == count_upto(fundamental_pred(gens), f + 1)
        &&& self.is_symmetric == (self.t == 1)
        &&& self.is_almost_symmetric == (f + self.t == 2 * self.g)
        &&& self.deep == deep_spec(apery, m)
    }
}

/// Membership through the Apéry set: `x ∈ S` iff `x ≥ apery[x mod m]`.
pub fn apery_member(apery: &Vec<usize>, m: usize, x: usize) -> (b: bool)
    requires
        m >= 1,
        apery@.len() == m,
    ensures
        b == (x >= apery@[(x % m) as int]),
{
    x >= apery[x % m]
}

/// Under [`core_ok`], the Apéry test decides membership.
pub proof fn lemma_member(gens: Seq<usize>, m: int, f: int, apery: Seq<usize>, x: int)
    requires
        core_ok(m, f, gens, apery),
        x >= 0,
    ensures
        (x >= apery[x % m]) == in_gen(gens, x),
{
    let r = x % m;
    assert(0 <= r < m) by (nonlinear_arith) requires m >= 1, r == x % m;
    assert(apery_min(gens, m, apery[r] as int, r));
    if x >= apery[r] {
        crate::compute::lemma_same_class_above(gens, m, apery[r] as int, x);
    }
}

} // verus!
