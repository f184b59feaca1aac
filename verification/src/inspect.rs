//! Inspectors of a [`Semigroup`]: membership, gaps, Kunz coefficients and
//! their diagonal sums, reflected gaps per residue class, structural
//! predicates and the classification of a number.
use vstd::prelude::*;
use crate::generated::{filter_upto, in_gen};
use crate::semigroup::{apery_member, lemma_member, pf_pred, reflected_pred, Semigroup};

verus! {

/// The Kunz coefficient formula on an Apéry list: `(w_i + w_j − w_{i+j}) / m`
/// with indices taken modulo `m`, and 0 where the difference would be negative.
pub open spec fn kunz_spec(apery: Seq<usize>, m: int, i: int, j: int) -> int {
    let s = apery[i % m] + apery[j % m];
    let w = apery[(i + j) % m] as int;
    if s >= w { (s - w) / m } else { 0 }
}

/// `Σ_{j<k} kunz(j, index + m − j)`.
pub open spec fn anti_diag_sum(apery: Seq<usize>, m: int, index: int, k: int) -> int
    decreases k,
{
    if k <= 0 {
        0
    } else {
        anti_diag_sum(apery, m, index, k - 1) + kunz_spec(apery, m, k - 1, index + m - (k - 1))
    }
}

/// `Σ_{j<k} kunz(index + j, j)`.
pub open spec fn main_diag_sum(apery: Seq<usize>, m: int, index: int, k: int) -> int
    decreases k,
{
    if k <= 0 {
        0
    } else {
        main_diag_sum(apery, m, index, k - 1) + kunz_spec(apery, m, index + k - 1, k - 1)
    }
}

/// `r_i`: the Kunz coefficient `c(i, (μ − i) mod m)` for `0 < i < m`, else 0.
pub open spec fn r_i_spec(apery: Seq<usize>, m: int, mu: int, i: int) -> int {
    if m < 2 || i == 0 || i >= m {
        0
    } else {
        kunz_spec(apery, m, i, (mu + m - i) % m)
    }
}

/// The least `r_i` over `i` in `1..k`, `i ≠ μ`, if there is one.
pub open spec fn min_r(apery: Seq<usize>, m: int, mu: int, k: int) -> Option<int>
    decreases k,
{
    if k <= 1 {
        None
    } else {
        let prev = min_r(apery, m, mu, k - 1);
        let c = k - 1;
        if c == mu {
            prev
        } else {
            let v = r_i_spec(apery, m, mu, c);
            match prev {
                None => Some(v),
                Some(p) => Some(if v < p { v } else { p }),
            }
        }
    }
}

/// Some entry of `v` equals `x`.
pub fn vec_contains(v: &Vec<usize>, x: usize) -> (b: bool)
    ensures
        b == crate::generated::seq_has(v@, x as int),
{
    let mut k: usize = 0;
    while k < v.len()
        invariant
            k <= v@.len(),
            forall|j: int| 0 <= j < k ==> v@[j] != x,
        decreases v@.len() - k,
    {
        if v[k] == x {
            return true;
        }
        k = k + 1;
    }
    false
}

/// A Kunz coefficient is at most `2(f + m)`.
pub proof fn lemma_kunz_bound(apery: Seq<usize>, m: int, f: int, i: int, j: int)
    requires
        m >= 1,
        apery.len() == m,
        forall|r: int| 0 <= r < m ==> #[trigger] apery[r] <= f + m,
    ensures
        0 <= kunz_spec(apery, m, i, j) <= 2 * (f + m),
{
    let a = i % m;
    let b = j % m;
    let c = (i + j) % m;
    assert(0 <= a < m && 0 <= b < m && 0 <= c < m) by (nonlinear_arith)
        requires m >= 1, a == i % m, b == j % m, c == (i + j) % m;
    let s = apery[a] + apery[b];
    let w = apery[c] as int;
    if s >= w {
        assert((s - w) / m <= s - w) by (nonlinear_arith) requires s - w >= 0, m >= 1;
        assert((s - w) / m >= 0) by (nonlinear_arith) requires s - w >= 0, m >= 1;
    }
}

impl Semigroup {
    /// Returns `true` if `x` is an element of S (`x ≥ apery_set[x mod m]`).
    pub fn element(&self, x: usize) -> (b: bool)
        requires
            self.wf(),
        ensures
            b == self.contains(x as int),
    {
        proof {
            lemma_member(self.gen_set@, self.m as int, self.f as int, self.apery_set@, x as int);
        }
        apery_member(&self.apery_set, self.m, x)
    }

    /// Returns `true` if `x` is a gap of S.
    pub fn is_gap(&self, x: usize) -> (b: bool)
        requires
            self.wf(),
        ensures
            b == !self.contains(x as int),
    {
        !self.element(x)
    }

    /// Returns `true` if both `x` and `f − x` are gaps.
    pub fn is_reflected_gap(&self, x: usize) -> (b: bool)
        requires
            self.wf(),
            x <= self.f,
        ensures
            b == (!self.contains(x as int) && !self.contains(self.f - x)),
    {
        self.is_gap(x) && self.is_gap(self.f - x)
    }

    /// The reflected gaps (gaps `x < f` with `f − x` a gap), increasing.
    pub fn blob(&self) -> (v: Vec<usize>)
        requires
            self.wf(),
        ensures
            v@ == filter_upto(reflected_pred(self.gen_set@, self.f as int), self.f as int),
    {
        let mut v: Vec<usize> = Vec::new();
        let mut x: usize = 0;
        while x < self.f
            invariant
                self.wf(),
                x <= self.f,
                v@ == filter_upto(reflected_pred(self.gen_set@, self.f as int), x as int),
            decreases self.f - x,
        {
            if self.is_reflected_gap(x) {
                v.push(x);
            }
            x = x + 1;
        }
        v
    }

    /// Kunz coefficient `c(i, j) = (w_i + w_j − w_{i+j}) / m`, indices modulo `m`.
    pub fn kunz(&self, i: usize, j: usize) -> (c: usize)
        requires
            self.wf(),
        ensures
            c == kunz_spec(self.apery_set@, self.m as int, i as int, j as int),
    {
        let m = self.m;
        let first = i % m;
        let second = j % m;
        proof {
            assert(i % m == ((i as int) + (j as int)) % (m as int) - ((i as int) + (j as int)) % (m as int) + i % m);
            vstd::arithmetic::div_mod::lemma_add_mod_noop(i as int, j as int, m as int);
            assert(self.apery_set@[first as int] <= self.f + self.m);
            assert(self.apery_set@[second as int] <= self.f + self.m);
            assert(2 * (self.f + self.m) <= usize::MAX) by (nonlinear_arith)
                requires 4 * (self.m * (self.f + self.m)) <= usize::MAX, self.m >= 1;
        }
        let idx = ((i % m) + (j % m)) % m;
        let sum = self.apery_set[first] + self.apery_set[second];
        let w = self.apery_set[idx];
        if sum >= w {
            (sum - w) / m
        } else {
            0
        }
    }

    /// Sum of the anti-diagonal of the Kunz matrix through column `i`:
    /// `Σ_{j<m} kunz(j, (i mod m) + m − j)`.
    pub fn diag(&self, i: usize) -> (d: usize)
        requires
            self.wf(),
        ensures
            d == anti_diag_sum(self.apery_set@, self.m as int, (i % self.m) as int, self.m as int),
    {
        let m = self.m;
        let index = i % m;
        let mut total: usize = 0;
        let mut j: usize = 0;
        proof {
            assert(2 * m * (self.f + m) <= usize::MAX / 2) by (nonlinear_arith)
                requires 4 * (m * (self.f + m)) <= usize::MAX;
            assert(m + m <= usize::MAX) by (nonlinear_arith)
                requires 2 * m * (self.f + m) <= usize::MAX / 2, m >= 1;
        }
        while j < m
            invariant
                self.wf(),
                m == self.m,
                index < m,
                j <= m,
                2 * m * (self.f + m) <= usize::MAX / 2,
                m + m <= usize::MAX,
                total == anti_diag_sum(self.apery_set@, m as int, index as int, j as int),
                total <= j * (2 * (self.f + m)),
            decreases m - j,
        {
            let c = self.kunz(j, index + m - j);
            proof {
                lemma_kunz_bound(self.apery_set@, m as int, self.f as int, j as int, index + m - j);
                assert((j + 1) * (2 * (self.f + m)) == j * (2 * (self.f + m)) + 2 * (self.f + m)) by (nonlinear_arith);
                assert((j + 1) * (2 * (self.f + m)) <= m * (2 * (self.f + m))) by (nonlinear_arith) requires j + 1 <= m;
                assert(m * (2 * (self.f + m)) == 2 * m * (self.f + m)) by (nonlinear_arith);
                assert(c <= 2 * (self.f + m));
                assert(total + c <= (j + 1) * (2 * (self.f + m)));
                assert(total + c <= usize::MAX);
            }
            total = total + c;
            j = j + 1;
        }
        total
    }

    /// Sum of the main diagonal of the Kunz matrix through row `i`:
    /// `Σ_{j<m} kunz((i mod m) + j, j)`.
    pub fn main_diag(&self, i: usize) -> (d: usize)
        requires
            self.wf(),
        ensures
            d == main_diag_sum(self.apery_set@, self.m as int, (i % self.m) as int, self.m as int),
    {
        let m = self.m;
        let index = i % m;
        let mut total: usize = 0;
        let mut j: usize = 0;
        proof {
            assert(2 * m * (self.f + m) <= usize::MAX / 2) by (nonlinear_arith)
                requires 4 * (m * (self.f + m)) <= usize::MAX;
            assert(m + m <= usize::MAX) by (nonlinear_arith)
                requires 2 * m * (self.f + m) <= usize::MAX / 2, m >= 1;
        }
        while j < m
            invariant
                self.wf(),
                m == self.m,
                index < m,
                j <= m,
                2 * m * (self.f + m) <= usize::MAX / 2,
                m + m <= usize::MAX,
                total == main_diag_sum(self.apery_set@, m as int, index as int, j as int),
                total <= j * (2 * (self.f + m)),
            decreases m - j,
        {
            let c = self.kunz(index + j, j);
            proof {
                lemma_kunz_bound(self.apery_set@, m as int, self.f as int, index + j, j as int);
                assert((j + 1) * (2 * (self.f + m)) == j * (2 * (self.f + m)) + 2 * (self.f + m)) by (nonlinear_arith);
                assert((j + 1) * (2 * (self.f + m)) <= m * (2 * (self.f + m))) by (nonlinear_arith) requires j + 1 <= m;
                assert(m * (2 * (self.f + m)) == 2 * m * (self.f + m)) by (nonlinear_arith);
                assert(c <= 2 * (self.f + m));
                assert(total + c <= (j + 1) * (2 * (self.f + m)));
                assert(total + c <= usize::MAX);
            }
            total = total + c;
            j = j + 1;
        }
        total
    }

    /// Number of reflected gaps in residue class `i`: the Kunz coefficient
    /// `c(i, (μ − i) mod m)` for `0 < i < m`, and 0 otherwise.
    pub fn r_i(&self, i: usize) -> (r: usize)
        requires
            self.wf(),
        ensures
            r == r_i_spec(self.apery_set@, self.m as int, self.mu as int, i as int),
    {
        if self.m < 2 || i == 0 || i >= self.m {
            return 0;
        }
        proof {
            assert(self.mu < self.m) by (nonlinear_arith) requires self.mu == self.f % self.m, self.m >= 1;
            assert(self.m + self.m <= usize::MAX) by (nonlinear_arith)
                requires 4 * (self.m * (self.f + self.m)) <= usize::MAX, self.m >= 1;
        }
        let j = (self.mu + (self.m - i)) % self.m;
        self.kunz(i, j)
    }

    /// ρ(S): the least `r_i` over `i ∈ 1..m`, `i ≠ μ`; 0 when there is none.
    pub fn rho(&self) -> (r: usize)
        requires
            self.wf(),
        ensures
            r == match min_r(self.apery_set@, self.m as int, self.mu as int, self.m as int) {
                Some(v) => v,
                None => 0,
            },
    {
        let mut best: Option<usize> = None;
        let mut i: usize = 1;
        while i < self.m
            invariant
                self.wf(),
                1 <= i,
                i <= self.m || self.m == 1,
                match best {
                    Some(b) => min_r(self.apery_set@, self.m as int, self.mu as int, i as int) == Some(b as int),
                    None => min_r(self.apery_set@, self.m as int, self.mu as int, i as int) == None::<int>,
                },
            decreases self.m - i,
        {
            if i != self.mu {
                let v = self.r_i(i);
                best = match best {
                    None => Some(v),
                    Some(b) => Some(if v < b { v } else { b }),
                };
            }
            i = i + 1;
        }
        match best {
            Some(b) => b,
            None => 0,
        }
    }
}


/// The label that [`Semigroup::classify`] gives `n`.
pub open spec fn classify_spec(s: Semigroup, n: int) -> Seq<char> {
    if n == 0 {
        "zero"@
    } else if n == s.m {
        "m=min(S)"@
    } else if n == s.f {
        "f=f(S) Frobenius"@
    } else if n == s.f + 1 {
        "c=c(S)=f+1 Conductor"@
    } else if crate::generated::seq_has(s.gen_set@, n) {
        "minimal Generator"@
    } else if s.apery_set@[n % (s.m as int)] == n {
        "in S, Apery"@
    } else if s.contains(n) {
        "S"@
    } else if n < s.f && !s.contains(s.f - n) {
        "reflected gap"@
    } else if !s.contains(n) {
        "gap"@
    } else {
        "unknown"@
    }
}

/// Pseudo-Frobenius numbers of a semigroup and their number, the type.
#[derive(Debug, Clone)]
pub struct PseudoSpecial {
    /// Pseudo-Frobenius numbers PF(S): gaps `x` with `x + s ∈ S` for every `s ∈ S \ {0}`.
    pub pf: Vec<usize>,
    /// Type of S: `pf.len()`.
    pub t: usize,
}

/// Reflected gaps `x` with `x + a ∈ S` for every minimal generator `a`.
pub open spec fn pf_blob_pred(s: Semigroup) -> spec_fn(int) -> bool {
    |x: int| reflected_pred(s.gen_set@, s.f as int)(x)
        && forall|k: int| 0 <= k < s.gen_set@.len() ==> s.contains(x + #[trigger] s.gen_set@[k])
}

/// Differences `gens[i] − gens[j]`, `j < i`, that are pseudo-Frobenius
/// (in `pf`) and do not divide `f`.
pub open spec fn special_pred(s: Semigroup, pf: Seq<usize>) -> spec_fn(int) -> bool {
    |d: int| d >= 1 && crate::generated::seq_has(pf, d) && (s.f as int) % d != 0
        && exists|i: int, j: int| 0 <= j < i < s.gen_set@.len() && #[trigger] s.gen_set@[i] - #[trigger] s.gen_set@[j] == d
}

impl Semigroup {
    /// The label of `n`: zero, multiplicity, Frobenius number, conductor,
    /// minimal generator, Apéry element, element, reflected gap or gap,
    /// the first that applies.
    pub fn classify(&self, n: usize) -> (label: &str)
        requires
            self.wf(),
        ensures
            label@ == classify_spec(*self, n as int),
    {
        proof {
            reveal_strlit("zero");
            reveal_strlit("m=min(S)");
            reveal_strlit("f=f(S) Frobenius");
            reveal_strlit("c=c(S)=f+1 Conductor");
            reveal_strlit("minimal Generator");
            reveal_strlit("in S, Apery");
            reveal_strlit("S");
            reveal_strlit("reflected gap");
            reveal_strlit("gap");
            reveal_strlit("unknown");
            assert(self.f + 1 <= usize::MAX) by (nonlinear_arith)
                requires 4 * (self.m * (self.f + self.m)) <= usize::MAX, self.m >= 1;
        }
        if n == 0 {
            "zero"
        } else if n == self.m {
            "m=min(S)"
        } else if n == self.f {
            "f=f(S) Frobenius"
        } else if n == self.f + 1 {
            "c=c(S)=f+1 Conductor"
        } else if vec_contains(&self.gen_set, n) {
            "minimal Generator"
        } else if self.apery_set[n % self.m] == n {
            "in S, Apery"
        } else if self.element(n) {
            "S"
        } else if n < self.f && !self.element(self.f - n) {
            "reflected gap"
        } else if !self.element(n) {
            "gap"
        } else {
            "unknown"
        }
    }

    /// Every Apéry element is `f + m` or below `f`.
    pub fn is_descent(&self) -> (b: bool)
        requires
            self.wf(),
        ensures
            b == forall|i: int| 0 <= i < self.m ==> #[trigger] self.apery_set@[i] == self.f + self.m || self.apery_set@[i] < self.f,
    {
        let top = self.f + self.m;
        let mut i: usize = 0;
        while i < self.m
            invariant
                self.wf(),
                top == self.f + self.m,
                i <= self.m,
                forall|j: int| 0 <= j < i ==> #[trigger] self.apery_set@[j] == self.f + self.m || self.apery_set@[j] < self.f,
            decreases self.m - i,
        {
            let w = self.apery_set[i];
            if !(w == top || w < self.f) {
                return false;
            }
            i = i + 1;
        }
        true
    }

    /// Some minimal generator equals `f + m` or lies in `(f − m, f)`.
    pub fn is_descent_image(&self) -> (b: bool)
        requires
            self.wf(),
        ensures
            b == exists|k: int| 0 <= k < self.gen_set@.len() && {
                let g = #[trigger] self.gen_set@[k];
                g == self.f + self.m || (g < self.f && g + self.m > self.f)
            },
    {
        let top = self.f + self.m;
        let mut k: usize = 0;
        while k < self.gen_set.len()
            invariant
                self.wf(),
                top == self.f + self.m,
                k <= self.gen_set@.len(),
                forall|j: int| 0 <= j < k ==> {
                    let g = #[trigger] self.gen_set@[j];
                    !(g == self.f + self.m || (g < self.f && g + self.m > self.f))
                },
            decreases self.gen_set@.len() - k,
        {
            let g = self.gen_set[k];
            if g == top || (g < self.f && g + self.m > self.f) {
                return true;
            }
            k = k + 1;
        }
        false
    }

    /// `f ≥ m` and the window `f − m + 1, …, f − 1` lies in S.
    pub fn v_in_s(&self) -> (b: bool)
        requires
            self.wf(),
        ensures
            b == (self.f >= self.m && forall|i: int| self.f - self.m + 1 <= i < self.f ==> #[trigger] self.contains(i)),
    {
        if self.f < self.m {
            return false;
        }
        let mut i: usize = self.f - self.m + 1;
        while i < self.f
            invariant
                self.wf(),
                self.f >= self.m,
                self.f - self.m + 1 <= i <= self.f,
                forall|j: int| self.f - self.m + 1 <= j < i ==> #[trigger] self.contains(j),
            decreases self.f - i,
        {
            if !self.element(i) {
                return false;
            }
            i = i + 1;
        }
        true
    }

    /// S is symmetric: as many gaps as elements up to `f` (`g = σ`).
    pub fn is_symmetric(&self) -> (b: bool)
        ensures
            b == (self.g == self.sigma),
    {
        self.g == self.sigma
    }

    /// PF(S) and the type `t = |PF(S)|`.
    pub fn pseudo_and_special(&self) -> (ps: PseudoSpecial)
        ensures
            ps.pf@ == self.pf_set@,
            ps.t == self.pf_set@.len(),
    {
        let pf = crate::manipulators::copy_vec(&self.pf_set);
        let t = pf.len();
        PseudoSpecial { pf, t }
    }

    /// `((PF, t), (special, st))`: the reflected gaps `x` with `x + a ∈ S`
    /// for every minimal generator `a`, followed by `f`, with their number;
    /// and the sorted distinct differences `gens[i] − gens[j]` (`j < i`)
    /// that lie in that list and do not divide `f`, with their number.
    pub fn pft(&self) -> (r: ((Vec<usize>, usize), (Vec<usize>, usize)))
        requires
            self.wf(),
        ensures
            r.0.0@ == filter_upto(pf_blob_pred(*self), self.f as int).push(self.f),
            r.0.1 == r.0.0@.len(),
            r.1.0@ == filter_upto(special_pred(*self, r.0.0@), self.f + 1),
            r.1.1 == r.1.0@.len(),
    {
        let f = self.f;
        let ghost p = pf_blob_pred(*self);
        let blob = self.blob();
        proof {
            assert(2 * f + self.m <= usize::MAX) by (nonlinear_arith)
                requires 4 * (self.m * (self.f + self.m)) <= usize::MAX, self.m >= 1, f == self.f;
            crate::manipulators::lemma_gens_bounded(*self);
        }
        let mut pf: Vec<usize> = Vec::new();
        let mut x: usize = 0;
        while x < f
            invariant
                self.wf(),
                f == self.f,
                2 * f + self.m <= usize::MAX,
                forall|k: int| 0 <= k < self.gen_set@.len() ==> 1 <= #[trigger] self.gen_set@[k] <= self.f + self.m,
                p == pf_blob_pred(*self),
                x <= f,
                pf@ == filter_upto(p, x as int),
            decreases f - x,
        {
            let mut ok = self.is_reflected_gap(x);
            if ok {
                let mut k: usize = 0;
                while k < self.gen_set.len()
                    invariant
                        self.wf(),
                        2 * f + self.m <= usize::MAX,
                        f == self.f,
                        forall|k: int| 0 <= k < self.gen_set@.len() ==> 1 <= #[trigger] self.gen_set@[k] <= self.f + self.m,
                        x < f,
                        k <= self.gen_set@.len(),
                        ok ==> forall|j: int| 0 <= j < k ==> self.contains(x + #[trigger] self.gen_set@[j]),
                        !ok ==> exists|j: int| 0 <= j < self.gen_set@.len() && !self.contains(x + #[trigger] self.gen_set@[j]),
                        reflected_pred(self.gen_set@, self.f as int)(x as int) || !ok,
                    decreases self.gen_set@.len() - k,
                {
                    if !self.element(x + self.gen_set[k]) {
                        ok = false;
                    }
                    k = k + 1;
                }
            }
            if ok {
                pf.push(x);
            }
            x = x + 1;
        }
        pf.push(f);
        let t = pf.len();
        let ghost sp = special_pred(*self, pf@);
        let mut special: Vec<usize> = Vec::new();
        let mut d: usize = 0;
        while d <= f
            invariant
                self.wf(),
                f == self.f,
                2 * f + self.m <= usize::MAX,
                sp == special_pred(*self, pf@),
                d <= f + 1,
                special@ == filter_upto(sp, d as int),
            decreases f + 1 - d,
        {
            let keep = d >= 1 && vec_contains(&pf, d) && f % d != 0 && self.has_difference(d);
            if keep {
                special.push(d);
            }
            d = d + 1;
        }
        let st = special.len();
        ((pf, t), (special, st))
    }

    /// Some difference `gens[i] − gens[j]`, `j < i`, equals `d`.
    fn has_difference(&self, d: usize) -> (b: bool)
        requires
            self.wf(),
        ensures
            b == exists|i: int, j: int| 0 <= j < i < self.gen_set@.len() && #[trigger] self.gen_set@[i] - #[trigger] self.gen_set@[j] == d,
    {
        let n = self.gen_set.len();
        let mut i: usize = 1;
        while i < n
            invariant
                self.wf(),
                n == self.gen_set@.len(),
                1 <= i <= n || n == 0,
                forall|a: int, b: int| 0 <= b < a < i && a < n ==> #[trigger] self.gen_set@[a] - #[trigger] self.gen_set@[b] != d,
            decreases n - i,
        {
            let mut j: usize = 0;
            while j < i
                invariant
                    self.wf(),
                    n == self.gen_set@.len(),
                    1 <= i < n,
                    j <= i,
                    forall|a: int, b: int| 0 <= b < a < i ==> #[trigger] self.gen_set@[a] - #[trigger] self.gen_set@[b] != d,
                    forall|b: int| 0 <= b < j ==> self.gen_set@[i as int] - #[trigger] self.gen_set@[b] != d,
                decreases i - j,
            {
                if self.gen_set[i] >= self.gen_set[j] && self.gen_set[i] - self.gen_set[j] == d {
                    return true;
                }
                j = j + 1;
            }
            i = i + 1;
        }
        false
    }
}

} // verus!
