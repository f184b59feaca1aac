//! Equality of semigroups and their partial order by containment.
use vstd::prelude::*;
use vstd::string::StringExecFns;
use std::cmp::Ordering;
use vstd::std_specs::cmp::{PartialEqSpecImpl, PartialOrdSpec, PartialOrdSpecImpl};
use crate::semigroup::Semigroup;

verus! {

/// Membership read off the Apéry set, as [`Semigroup::element`] reads it:
/// `x ≥ apery_set[x mod m]` (false for a record without an Apéry set).
pub open spec fn apery_member(s: Semigroup, x: int) -> bool {
    &&& s.m >= 1
    &&& s.apery_set@.len() == s.m
    &&& x >= s.apery_set@[x % (s.m as int)]
}

/// The range `1..=limit` checked by the containment order: the larger
/// Frobenius number plus the larger multiplicity (capped at `usize::MAX`).
pub open spec fn order_limit(a: Semigroup, b: Semigroup) -> int {
    let f = if a.f >= b.f { a.f as int } else { b.f as int };
    let m = if a.m >= b.m { a.m as int } else { b.m as int };
    if f + m > usize::MAX { usize::MAX as int } else { f + m }
}

/// Every member of `a` in `1..=limit` is a member of `b`.
pub open spec fn included_upto(a: Semigroup, b: Semigroup, limit: int) -> bool {
    forall|i: int| 1 <= i <= limit ==> #[trigger] apery_member(a, i) ==> apery_member(b, i)
}

/// Every element of `a` is an element of `b`.
pub open spec fn included(a: Semigroup, b: Semigroup) -> bool {
    forall|x: int| #[trigger] a.contains(x) ==> b.contains(x)
}

/// Membership through the Apéry set, for any record.
fn member(s: &Semigroup, x: usize) -> (b: bool)
    ensures
        b == apery_member(*s, x as int),
{
    s.m >= 1 && s.apery_set.len() == s.m && x >= s.apery_set[x % s.m]
}

/// The larger Frobenius number plus the larger multiplicity, capped.
fn limit_of(a: &Semigroup, b: &Semigroup) -> (l: usize)
    ensures
        l == order_limit(*a, *b),
{
    let f = if a.f >= b.f { a.f } else { b.f };
    let m = if a.m >= b.m { a.m } else { b.m };
    f.saturating_add(m)
}

/// Whether every member of `a` in `1..=limit` is a member of `b`.
fn included_upto_exec(a: &Semigroup, b: &Semigroup, limit: usize) -> (r: bool)
    ensures
        r == included_upto(*a, *b, limit as int),
{
    let mut i: usize = 1;
    while i <= limit
        invariant
            1 <= i,
            i <= limit + 1,
            forall|j: int| 1 <= j < i ==> #[trigger] apery_member(*a, j) ==> apery_member(*b, j),
        decreases limit + 1 - i,
    {
        if member(a, i) && !member(b, i) {
            assert(apery_member(*a, i as int));
            return false;
        }
        if i == limit {
            return true;
        }
        i = i + 1;
    }
    true
}

/// For well-formed records, the check up to [`order_limit`] decides containment.
pub proof fn lemma_included_upto(a: Semigroup, b: Semigroup)
    requires
        a.wf(),
        b.wf(),
    ensures
        included_upto(a, b, order_limit(a, b)) == included(a, b),
{
    let l = order_limit(a, b);
    assert(a.f + a.m <= usize::MAX / 4) by (nonlinear_arith)
        requires 4 * (a.m * (a.f + a.m)) <= usize::MAX, a.m >= 1;
    assert(b.f + b.m <= usize::MAX / 4) by (nonlinear_arith)
        requires 4 * (b.m * (b.f + b.m)) <= usize::MAX, b.m >= 1;
    assert(l >= a.f && l >= b.f);
    if included_upto(a, b, l) {
        assert forall|x: int| #[trigger] a.contains(x) implies b.contains(x) by {
            crate::generated::lemma_in_gen_nonneg(a.gen_set@, x);
            if x == 0 {
            } else if x <= l {
                crate::semigroup::lemma_member(a.gen_set@, a.m as int, a.f as int, a.apery_set@, x);
                crate::semigroup::lemma_member(b.gen_set@, b.m as int, b.f as int, b.apery_set@, x);
                assert(apery_member(a, x));
            } else {
                crate::manipulators::lemma_above_frobenius(b, x);
            }
        }
    }
    if included(a, b) {
        assert forall|i: int| 1 <= i <= l implies (#[trigger] apery_member(a, i) ==> apery_member(b, i)) by {
            crate::semigroup::lemma_member(a.gen_set@, a.m as int, a.f as int, a.apery_set@, i);
            crate::semigroup::lemma_member(b.gen_set@, b.m as int, b.f as int, b.apery_set@, i);
            assert(a.contains(i) ==> b.contains(i));
        }
    }
}

/// The result of the containment order, from the two inclusions.
pub open spec fn order_of(le: bool, ge: bool) -> Option<Ordering> {
    if le && ge {
        Some(Ordering::Equal)
    } else if le {
        Some(Ordering::Less)
    } else if ge {
        Some(Ordering::Greater)
    } else {
        None
    }
}

/// Two semigroups are equal when they have the same generators, Frobenius
/// number, embedding dimension and multiplicity.
impl PartialEq for Semigroup {
    fn eq(&self, other: &Self) -> (r: bool) {
        if self.f != other.f || self.e != other.e || self.m != other.m {
            return false;
        }
        if self.gen_set.len() != other.gen_set.len() {
            return false;
        }
        let mut k: usize = 0;
        while k < self.gen_set.len()
            invariant
                self.gen_set@.len() == other.gen_set@.len(),
                k <= self.gen_set@.len(),
                forall|j: int| 0 <= j < k ==> self.gen_set@[j] == other.gen_set@[j],
            decreases self.gen_set@.len() - k,
        {
            if self.gen_set[k] != other.gen_set[k] {
                return false;
            }
            k = k + 1;
        }
        proof {
            assert(self.gen_set@ =~= other.gen_set@);
        }
        true
    }
}

impl PartialEqSpecImpl for Semigroup {
    open spec fn obeys_eq_spec() -> bool {
        true
    }

    open spec fn eq_spec(&self, other: &Self) -> bool {
        self.gen_set@ == other.gen_set@ && self.f == other.f && self.e == other.e && self.m == other.m
    }
}

impl Eq for Semigroup {}

/// The partial order by containment: `S₁ ≤ S₂` when every element of `S₁`
/// lies in `S₂`, checked on `1..=max(f) + max(m)`; `None` when neither
/// contains the other.
impl PartialOrd for Semigroup {
    fn partial_cmp(&self, other: &Self) -> (r: Option<Ordering>) {
        let limit = limit_of(self, other);
        let le = included_upto_exec(self, other, limit);
        let ge = included_upto_exec(other, self, limit);
        if le && ge {
            Some(Ordering::Equal)
        } else if le {
            Some(Ordering::Less)
        } else if ge {
            Some(Ordering::Greater)
        } else {
            None
        }
    }
}

impl PartialOrdSpecImpl for Semigroup {
    open spec fn obeys_partial_cmp_spec() -> bool {
        true
    }

    open spec fn partial_cmp_spec(&self, other: &Self) -> Option<Ordering> {
        order_of(
            included_upto(*self, *other, order_limit(*self, *other)),
            included_upto(*other, *self, order_limit(*self, *other)),
        )
    }
}

/// For semigroups the order is containment of their element sets: equal
/// sets compare `Equal`, a proper subset `Less`, a proper superset
/// `Greater`, and incomparable sets give `None`.
pub proof fn lemma_order_is_containment(a: Semigroup, b: Semigroup)
    requires
        a.wf(),
        b.wf(),
    ensures
        PartialOrdSpec::partial_cmp_spec(&a, &b) == order_of(included(a, b), included(b, a)),
{
    lemma_included_upto(a, b);
    lemma_included_upto(b, a);
    assert(order_limit(a, b) == order_limit(b, a));
}

/// The glyph of a containment result: `⊂`, `=`, `⊃`, or `?`.
pub fn containment_glyph(ord: Option<Ordering>) -> (g: &'static str)
    ensures
        g@ == order_glyph(ord),
{
    match ord {
        Some(Ordering::Less) => "\u{2282}",
        Some(Ordering::Equal) => "=",
        Some(Ordering::Greater) => "\u{2283}",
        None => "?",
    }
}

/// The glyph of [`containment_glyph`].
pub open spec fn order_glyph(ord: Option<Ordering>) -> Seq<char> {
    match ord {
        Some(Ordering::Less) => "\u{2282}"@,
        Some(Ordering::Equal) => "="@,
        Some(Ordering::Greater) => "\u{2283}"@,
        None => "?"@,
    }
}

/// How `s1` and `s2` relate by containment, as a glyph: `⊂` (`s1 ⊊ s2`),
/// `=`, `⊃` (`s1 ⊋ s2`) or `?` (incomparable).
pub fn js_cmp_semigroups(s1: &Semigroup, s2: &Semigroup) -> (g: String)
    ensures
        g@ == order_glyph(PartialOrdSpec::partial_cmp_spec(s1, s2)),
{
    let ord = s1.partial_cmp(s2);
    let mut g = String::new();
    g.append(containment_glyph(ord));
    g
}

} // verus!
