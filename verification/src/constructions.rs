//! Two constructions of new semigroups from old: the symmetric partner S̄
//! with S = S̄/2 (Rosales and García-Sánchez), and the self-gluing
//! `m·S + x·S` with `x` the first minimal generator coprime to `m`.
use vstd::prelude::*;
use crate::arith::{gcd, spec_gcd};
use crate::compute::{compute, compute_small};
use crate::generated::{filter_upto, seq_has};
use crate::manipulators::{
    generated_by, lemma_filter_members, lemma_filter_nonempty, lemma_gens_bounded, lemma_small_mono,
};
use crate::semigroup::{small_enough, Semigroup};

verus! {

/// Membership in S̄: every `n ≥ 4f`; an even `n` when `n/2 ∈ S`; an odd
/// `n < 4f` when `h = (4f − 1 − n)/2` is a positive gap of S.
pub open spec fn in_partner(s: Semigroup, n: int) -> bool {
    let g = s.f as int;
    if n >= 4 * g {
        true
    } else if n % 2 == 0 {
        s.contains(n / 2)
    } else {
        let h = (4 * g - 1 - n) / 2;
        h > 0 && !s.contains(h)
    }
}

/// Positive elements of S̄ that are not sums of two positive elements of S̄.
pub open spec fn partner_atom(s: Semigroup) -> spec_fn(int) -> bool {
    |x: int| 1 <= x && in_partner(s, x) && forall|a: int| 1 <= a < x ==> !(#[trigger] in_partner(s, a) && in_partner(s, x - a))
}

/// Positive elements of S̄.
pub open spec fn partner_pos(s: Semigroup) -> spec_fn(int) -> bool {
    |x: int| 1 <= x && in_partner(s, x)
}

/// The generators listed by [`symmetric_partner`] for `f ≥ 2`: the atoms of S̄ up to `4f`.
pub open spec fn partner_list(s: Semigroup) -> Seq<usize> {
    filter_upto(partner_atom(s), 4 * s.f + 1)
}

/// An entry `p` of a filtered range occurs in it.
pub proof fn lemma_filter_complete(p: spec_fn(int) -> bool, n: int, x: int)
    requires
        0 <= x < n,
        p(x),
        n <= usize::MAX + 1,
    ensures
        seq_has(filter_upto(p, n), x),
    decreases n,
{
    if x < n - 1 {
        lemma_filter_complete(p, n - 1, x);
        let k = choose|k: int| 0 <= k < filter_upto(p, n - 1).len() && #[trigger] filter_upto(p, n - 1)[k] == x;
        if p(n - 1) {
            assert(filter_upto(p, n)[k] == x);
        }
    } else {
        assert(filter_upto(p, n).last() == x);
    }
}

/// Below every positive element of S̄ lies an atom of S̄.
pub proof fn lemma_least_atom(s: Semigroup, y: int) -> (x: int)
    requires
        y >= 1,
        in_partner(s, y),
    ensures
        1 <= x <= y,
        partner_atom(s)(x),
    decreases y,
{
    if partner_atom(s)(y) {
        y
    } else {
        let a = choose|a: int| 1 <= a < y && #[trigger] in_partner(s, a) && in_partner(s, y - a);
        lemma_least_atom(s, a)
    }
}

impl Semigroup {
    /// Membership in the symmetric partner S̄ (see [`in_partner`]).
    fn partner_element(&self, n: usize) -> (b: bool)
        requires
            self.wf(),
            4 * self.f <= usize::MAX,
        ensures
            b == in_partner(*self, n as int),
    {
        let four_g = 4 * self.f;
        if n >= four_g {
            return true;
        }
        if n % 2 == 0 {
            return self.element(n / 2);
        }
        let h = (four_g - 1 - n) / 2;
        h > 0 && self.is_gap(h)
    }
}

/// The symmetric partner S̄ of `s`, with `S = S̄/2`: generated by S itself
/// when `f = 0`, by `4, 5, 6` when `f = 1`, and otherwise by the atoms of
/// S̄ up to `4f` (see [`in_partner`]).
pub fn symmetric_partner(s: &Semigroup) -> (r: Semigroup)
    requires
        s.wf(),
        crate::compute::fits_pair(s.m as int, s.f + s.m),
        crate::compute::fits_pair(2 * s.m, 4 * s.f),
    ensures
        s.f == 0 ==> generated_by(r, s.gen_set@),
        s.f == 1 ==> generated_by(r, seq![4usize, 5, 6]),
        s.f >= 2 ==> generated_by(r, partner_list(*s)),
{
    let g = s.f;
    if g == 0 {
        proof {
            crate::manipulators::lemma_fits_with(*s, Seq::<usize>::empty(), s.f + s.m);
            assert(s.gen_set@ + Seq::<usize>::empty() == s.gen_set@);
        }
        return compute(s.gen_set.as_slice());
    }
    if g == 1 {
        let v: Vec<usize> = vec![4, 5, 6];
        proof {
            assert(v@ == seq![4usize, 5, 6]);
            assert(small_enough(6)) by (nonlinear_arith) requires usize::MAX >= 0xffff_ffff;
            lemma_small_mono(4, 6);
            lemma_small_mono(5, 6);
        }
        return compute_small(v.as_slice());
    }
    proof {
        assert(4 * g + 1 <= usize::MAX);
    }
    let four_g = 4 * g;
    let ghost atom = partner_atom(*s);
    let ghost pos = partner_pos(*s);
    proof {
        assert(filter_upto(atom, 1) == filter_upto(atom, 0));
        assert(filter_upto(pos, 1) == filter_upto(pos, 0));
    }
    let mut sbar_pos: Vec<usize> = Vec::new();
    let mut generators: Vec<usize> = Vec::new();
    let mut x: usize = 1;
    while x <= four_g
        invariant
            s.wf(),
            g == s.f,
            four_g == 4 * g,
            four_g + 1 <= usize::MAX,
            atom == partner_atom(*s),
            pos == partner_pos(*s),
            1 <= x <= four_g + 1,
            sbar_pos@ == filter_upto(pos, x as int),
            generators@ == filter_upto(atom, x as int),
        decreases four_g + 1 - x,
    {
        if s.partner_element(x) {
            let mut decomposable = false;
            let mut k: usize = 0;
            proof {
                lemma_filter_members(pos, x as int);
            }
            while k < sbar_pos.len()
                invariant
                    s.wf(),
                    four_g == 4 * s.f,
                    pos == partner_pos(*s),
                    1 <= x <= four_g,
                    sbar_pos@ == filter_upto(pos, x as int),
                    forall|j: int| 0 <= j < sbar_pos@.len() ==> 0 <= #[trigger] sbar_pos@[j] < x && pos(sbar_pos@[j] as int),
                    k <= sbar_pos@.len(),
                    decomposable == exists|j: int| 0 <= j < k && #[trigger] in_partner(*s, x - sbar_pos@[j]),
                decreases sbar_pos@.len() - k,
            {
                let a = sbar_pos[k];
                if s.partner_element(x - a) {
                    decomposable = true;
                }
                k = k + 1;
            }
            proof {
                if decomposable {
                    let j = choose|j: int| 0 <= j < sbar_pos@.len() && #[trigger] in_partner(*s, x - sbar_pos@[j]);
                    let a = sbar_pos@[j] as int;
                    assert(in_partner(*s, a) && in_partner(*s, x - a));
                    assert(!atom(x as int));
                } else {
                    assert forall|a: int| 1 <= a < x implies !(#[trigger] in_partner(*s, a) && in_partner(*s, x - a)) by {
                        if in_partner(*s, a) {
                            lemma_filter_complete(pos, x as int, a);
                            let j = choose|j: int| 0 <= j < sbar_pos@.len() && #[trigger] sbar_pos@[j] == a;
                            assert(!in_partner(*s, x - sbar_pos@[j]));
                        }
                    }
                    assert(atom(x as int));
                }
            }
            sbar_pos.push(x);
            if !decomposable {
                generators.push(x);
            }
        }
        x = x + 1;
    }
    proof {
        lemma_filter_members(atom, four_g + 1);
        let l = generators@;
        // S̄ holds 2m (m ∈ S), so it has an atom no larger than 2m.
        let y0: int = if 2 * s.m < four_g { 2 * s.m } else { four_g as int };
        assert((2 * s.m) % 2 == 0 && (2 * s.m) / 2 == s.m) by (nonlinear_arith) requires s.m >= 1;
        crate::generated::lemma_gen_in(s.gen_set@, 0);
        assert(in_partner(*s, y0));
        let x0 = lemma_least_atom(*s, y0);
        let k = crate::generated::lemma_filter_contains(atom, four_g + 1, x0);
        assert forall|i: int| 0 <= i < l.len() implies 1 <= #[trigger] l[i] <= 4 * s.f by {}
        crate::compute::lemma_fits_below(l, k, 2 * s.m, 4 * s.f);
    }
    compute(generators.as_slice())
}


/// The first of `gens[..k]` other than `m` and coprime to `m`.
pub open spec fn first_coprime(gens: Seq<usize>, m: int, k: int) -> Option<int>
    decreases k,
{
    if k <= 0 {
        None
    } else {
        match first_coprime(gens, m, k - 1) {
            Some(v) => Some(v),
            None => {
                let g = gens[k - 1] as int;
                if g != m && spec_gcd(m as nat, g as nat) == 1 { Some(g) } else { None }
            },
        }
    }
}

/// `m·g₀, x·g₀, m·g₁, x·g₁, …` over the generators `gᵢ`.
pub open spec fn glue_list(gens: Seq<usize>, m: int, x: int) -> Seq<usize> {
    Seq::new(2 * gens.len(), |i: int| if i % 2 == 0 { (m * gens[i / 2]) as usize } else { (x * gens[i / 2]) as usize })
}

/// The first minimal generator other than `m` that is coprime to `m`.
fn find_coprime_gen(s: &Semigroup) -> (r: Option<usize>)
    requires
        s.wf(),
    ensures
        r matches Some(v) ==> first_coprime(s.gen_set@, s.m as int, s.gen_set@.len() as int) == Some(v as int),
        r is None ==> first_coprime(s.gen_set@, s.m as int, s.gen_set@.len() as int) is None,
{
    let m = s.m;
    let mut k: usize = 0;
    while k < s.gen_set.len()
        invariant
            m == s.m,
            k <= s.gen_set@.len(),
            first_coprime(s.gen_set@, m as int, k as int) is None,
        decreases s.gen_set@.len() - k,
    {
        let g = s.gen_set[k];
        if g != m && gcd(m, g) == 1 {
            proof {
                lemma_first_coprime_stable(s.gen_set@, m as int, k + 1, s.gen_set@.len() as int);
            }
            return Some(g);
        }
        k = k + 1;
    }
    None
}

/// Self-gluing is possible: some minimal generator other than `m` is coprime to `m`.
pub fn can_self_glue(s: &Semigroup) -> (b: bool)
    requires
        s.wf(),
    ensures
        b == (first_coprime(s.gen_set@, s.m as int, s.gen_set@.len() as int) is Some),
{
    find_coprime_gen(s).is_some()
}

/// The self-gluing `m·S + x·S`, generated by `m·g` and `x·g` over the
/// minimal generators `g`, where `x` is the first minimal generator other
/// than `m` coprime to `m`; `None` when there is no such generator.
pub fn self_glue(s: &Semigroup) -> (r: Option<Semigroup>)
    requires
        s.wf(),
        crate::compute::fits_pair(s.m * s.m, (s.f + s.m) * (s.f + s.m)),
    ensures
        r is None <==> first_coprime(s.gen_set@, s.m as int, s.gen_set@.len() as int) is None,
        r matches Some(t) ==> generated_by(t, glue_list(s.gen_set@, s.m as int,
            first_coprime(s.gen_set@, s.m as int, s.gen_set@.len() as int)->0)),
{
    let m = s.m;
    let x = match find_coprime_gen(s) {
        Some(v) => v,
        None => {
            return None;
        },
    };
    let ghost gens = s.gen_set@;
    let ghost b = (s.f + s.m) * (s.f + s.m);
    proof {
        lemma_gens_bounded(*s);
        lemma_first_coprime_member(gens, m as int, gens.len() as int);
        assert(b >= 1) by (nonlinear_arith) requires b == (s.f + s.m) * (s.f + s.m), s.m >= 1;
        assert(b <= usize::MAX);
    }
    let mut new_gens: Vec<usize> = Vec::new();
    let mut k: usize = 0;
    while k < s.gen_set.len()
        invariant
            gens == s.gen_set@,
            m == s.m,
            1 <= x <= s.f + s.m,
            1 <= m <= s.f + s.m,
            b == (s.f + s.m) * (s.f + s.m),
            b <= usize::MAX,
            forall|j: int| 0 <= j < gens.len() ==> 1 <= #[trigger] gens[j] <= s.f + s.m,
            k <= gens.len(),
            new_gens@.len() == 2 * k,
            forall|i: int| 0 <= i < 2 * k ==> #[trigger] new_gens@[i] == glue_list(gens, m as int, x as int)[i],
        decreases gens.len() - k,
    {
        let g = s.gen_set[k];
        proof {
            assert(m * g <= b && x * g <= b) by (nonlinear_arith)
                requires 1 <= m <= s.f + s.m, 1 <= x <= s.f + s.m, 1 <= g <= s.f + s.m, b == (s.f + s.m) * (s.f + s.m);
            assert((2 * k) / 2 == k && (2 * k) % 2 == 0);
            assert((2 * k + 1) / 2 == k && (2 * k + 1) % 2 == 1);
        }
        new_gens.push(m * g);
        new_gens.push(x * g);
        k = k + 1;
    }
    proof {
        let l = new_gens@;
        assert(l =~= glue_list(gens, m as int, x as int));
        assert forall|i: int| 0 <= i < l.len() implies 1 <= #[trigger] l[i] <= b by {
            let g = gens[i / 2] as int;
            assert(1 <= m * g <= b && 1 <= x * g <= b) by (nonlinear_arith)
                requires 1 <= m <= s.f + s.m, 1 <= x <= s.f + s.m, 1 <= g <= s.f + s.m, b == (s.f + s.m) * (s.f + s.m);
        }
        assert(0int % 2 == 0 && 0int / 2 == 0);
        assert(1 <= m * gens[0] <= b) by (nonlinear_arith)
            requires 1 <= m <= s.f + s.m, gens[0] == m, b == (s.f + s.m) * (s.f + s.m);
        assert(l[0] == (m * gens[0]) as usize);
        assert(l[0] == m * gens[0]);
        crate::compute::lemma_fits_below(l, 0, s.m * s.m, b);
    }
    Some(crate::compute::compute(new_gens.as_slice()))
}

/// Once found, the first coprime generator stays the same over longer prefixes.
proof fn lemma_first_coprime_stable(gens: Seq<usize>, m: int, j: int, k: int)
    requires
        0 <= j <= k,
        first_coprime(gens, m, j) is Some,
    ensures
        first_coprime(gens, m, k) == first_coprime(gens, m, j),
    decreases k,
{
    if k > j {
        lemma_first_coprime_stable(gens, m, j, k - 1);
    }
}

/// The generator picked by [`first_coprime`] is one of the generators.
proof fn lemma_first_coprime_member(gens: Seq<usize>, m: int, k: int)
    requires
        0 <= k <= gens.len(),
    ensures
        first_coprime(gens, m, k) matches Some(v) ==> seq_has(gens, v),
    decreases k,
{
    if k > 0 {
        lemma_first_coprime_member(gens, m, k - 1);
        if first_coprime(gens, m, k - 1) is None && first_coprime(gens, m, k) is Some {
            assert(gens[k - 1] == first_coprime(gens, m, k)->0);
        }
    }
}


impl Semigroup {
    /// The symmetric partner S̄ with `S = S̄/2` (see [`symmetric_partner`]).
    pub fn compute_symmetric_partner(&self) -> (r: Semigroup)
        requires
            self.wf(),
            crate::compute::fits_pair(self.m as int, self.f + self.m),
            crate::compute::fits_pair(2 * self.m, 4 * self.f),
        ensures
            self.f == 0 ==> generated_by(r, self.gen_set@),
            self.f == 1 ==> generated_by(r, seq![4usize, 5, 6]),
            self.f >= 2 ==> generated_by(r, partner_list(*self)),
    {
        symmetric_partner(self)
    }
}

} // verus!
