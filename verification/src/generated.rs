//! The submonoid of the natural numbers generated by a list of numbers, and
//! the facts about it that the algorithms rely on.
use vstd::prelude::*;
use vstd::arithmetic::div_mod::{lemma_add_mod_noop, lemma_add_mod_noop_right, lemma_mul_mod_noop_right, lemma_small_mod};
use vstd::set_lib::{lemma_int_range, lemma_len_subset, lemma_subset_equality, set_int_range};
use crate::arith::dot;

verus! {

/// `x` is a finite sum of positive entries of `gens` (the empty sum gives 0).
pub open spec fn in_gen(gens: Seq<usize>, x: int) -> bool
    decreases x, gens.len() + 1,
{
    if x < 0 {
        false
    } else if x == 0 {
        true
    } else {
        in_gen_via(gens, x, gens.len() as int)
    }
}

/// `x > 0` is some positive `gens[i]`, `i < k`, plus an element of the monoid.
pub open spec fn in_gen_via(gens: Seq<usize>, x: int, k: int) -> bool
    decreases x, k,
{
    if k <= 0 || x <= 0 {
        false
    } else if 0 < gens[k - 1] <= x && in_gen(gens, x - gens[k - 1]) {
        true
    } else {
        in_gen_via(gens, x, k - 1)
    }
}

proof fn lemma_via_exists(gens: Seq<usize>, x: int, k: int)
    requires
        x > 0,
        0 <= k <= gens.len(),
    ensures
        in_gen_via(gens, x, k) <==> exists|i: int|
            0 <= i < k && 0 < gens[i] <= x && #[trigger] in_gen(gens, x - gens[i]),
    decreases k,
{
    if k > 0 {
        lemma_via_exists(gens, x, k - 1);
        if in_gen_via(gens, x, k) {
            if 0 < gens[k - 1] <= x && in_gen(gens, x - gens[k - 1]) {
                assert(in_gen(gens, x - gens[k - 1]));
            }
        }
        if exists|i: int| 0 <= i < k && 0 < gens[i] <= x && #[trigger] in_gen(gens, x - gens[i]) {
            let i = choose|i: int| 0 <= i < k && 0 < gens[i] <= x && #[trigger] in_gen(gens, x - gens[i]);
            if i < k - 1 {
                assert(in_gen_via(gens, x, k - 1));
            }
        }
    }
}

/// The definition of `in_gen` for a positive number, as an existential.
pub proof fn lemma_in_gen_unfold(gens: Seq<usize>, x: int)
    requires
        x > 0,
    ensures
        in_gen(gens, x) <==> exists|i: int|
            0 <= i < gens.len() && 0 < gens[i] <= x && #[trigger] in_gen(gens, x - gens[i]),
{
    lemma_via_exists(gens, x, gens.len() as int);
}

/// One step of the definition, read backwards.
pub proof fn lemma_in_gen_step(gens: Seq<usize>, y: int, i: int)
    requires
        0 <= i < gens.len(),
        0 < gens[i] <= y,
        in_gen(gens, y - gens[i]),
    ensures
        in_gen(gens, y),
{
    lemma_in_gen_unfold(gens, y);
}

/// Adding a positive generator stays in the monoid.
pub proof fn lemma_add_gen(gens: Seq<usize>, x: int, i: int)
    requires
        in_gen(gens, x),
        0 <= i < gens.len(),
        gens[i] > 0,
    ensures
        in_gen(gens, x + gens[i]),
{
    lemma_in_gen_step(gens, x + gens[i], i);
}

/// Every positive entry is an element.
pub proof fn lemma_gen_in(gens: Seq<usize>, i: int)
    requires
        0 <= i < gens.len(),
        gens[i] > 0,
    ensures
        in_gen(gens, gens[i] as int),
{
    lemma_add_gen(gens, 0, i);
}

/// The monoid is closed under addition.
pub proof fn lemma_closed_add(gens: Seq<usize>, a: int, b: int)
    requires
        in_gen(gens, a),
        in_gen(gens, b),
    ensures
        in_gen(gens, a + b),
    decreases b,
{
    if b > 0 {
        lemma_in_gen_unfold(gens, b);
        let i = choose|i: int| 0 <= i < gens.len() && 0 < gens[i] <= b && #[trigger] in_gen(gens, b - gens[i]);
        lemma_closed_add(gens, a, b - gens[i]);
        lemma_add_gen(gens, a + (b - gens[i]), i);
    }
}

/// Multiples of elements are elements.
pub proof fn lemma_closed_mul(gens: Seq<usize>, k: nat, x: int)
    requires
        in_gen(gens, x),
    ensures
        in_gen(gens, k * x),
    decreases k,
{
    if k > 0 {
        lemma_closed_mul(gens, (k - 1) as nat, x);
        lemma_closed_add(gens, (k - 1) * x, x);
        assert((k - 1) * x + x == k * x) by (nonlinear_arith);
    } else {
        assert(k * x == 0) by (nonlinear_arith) requires k == 0;
    }
}

/// Elements are never negative.
pub proof fn lemma_in_gen_nonneg(gens: Seq<usize>, x: int)
    requires
        in_gen(gens, x),
    ensures
        x >= 0,
{
}

/// The monoid only depends on which positive numbers occur in the list:
/// a list whose positive entries all occur in a second list generates a
/// submonoid of the second one.
pub proof fn lemma_in_gen_subset(a: Seq<usize>, b: Seq<usize>, x: int)
    requires
        forall|i: int| 0 <= i < a.len() && a[i] > 0 ==> #[trigger] b.contains(a[i]),
        in_gen(a, x),
    ensures
        in_gen(b, x),
    decreases x,
{
    if x > 0 {
        lemma_in_gen_unfold(a, x);
        let i = choose|i: int| 0 <= i < a.len() && 0 < a[i] <= x && #[trigger] in_gen(a, x - a[i]);
        assert(b.contains(a[i]));
        let j = choose|j: int| 0 <= j < b.len() && b[j] == a[i];
        lemma_in_gen_subset(a, b, x - a[i]);
        lemma_in_gen_step(b, x, j);
    }
}

/// `x` is an atom of the monoid: a positive element that is not the sum of
/// two positive elements.
pub open spec fn is_atom(g: Seq<usize>, x: int) -> bool {
    &&& in_gen(g, x)
    &&& x > 0
    &&& forall|a: int| 0 < a < x ==> !(#[trigger] in_gen(g, a) && in_gen(g, x - a))
}

/// Membership in the monoid generated by `gens`, as a predicate.
pub open spec fn in_gen_pred(gens: Seq<usize>) -> spec_fn(int) -> bool {
    |x: int| in_gen(gens, x)
}

/// Some entry of `s` equals `y`.
pub open spec fn seq_has(s: Seq<usize>, y: int) -> bool {
    exists|j: int| 0 <= j < s.len() && s[j] == y
}

/// The number of `x` in `0..n` with `p(x)`.
pub open spec fn count_upto(p: spec_fn(int) -> bool, n: int) -> nat
    decreases n,
{
    if n <= 0 {
        0
    } else {
        count_upto(p, n - 1) + if p(n - 1) { 1nat } else { 0nat }
    }
}

/// The `x` in `0..n` with `p(x)`, in increasing order.
pub open spec fn filter_upto(p: spec_fn(int) -> bool, n: int) -> Seq<usize>
    decreases n,
{
    if n <= 0 {
        Seq::empty()
    } else if p(n - 1) {
        filter_upto(p, n - 1).push((n - 1) as usize)
    } else {
        filter_upto(p, n - 1)
    }
}

/// A list whose positive entries lie in the monoid generated by a second
/// list generates a submonoid of it.
pub proof fn lemma_in_gen_sub_monoid(a: Seq<usize>, b: Seq<usize>, x: int)
    requires
        forall|i: int| 0 <= i < a.len() && a[i] > 0 ==> in_gen(b, #[trigger] a[i] as int),
        in_gen(a, x),
    ensures
        in_gen(b, x),
    decreases x,
{
    if x > 0 {
        lemma_in_gen_unfold(a, x);
        let i = choose|i: int| 0 <= i < a.len() && 0 < a[i] <= x && #[trigger] in_gen(a, x - a[i]);
        lemma_in_gen_sub_monoid(a, b, x - a[i]);
        lemma_closed_add(b, x - a[i], a[i] as int);
    }
}

/// Every element is generated by the atoms, when all atoms occur in `atoms`.
pub proof fn lemma_generated_by_atoms(g: Seq<usize>, atoms: Seq<usize>, x: int)
    requires
        forall|y: int| #[trigger] is_atom(g, y) ==> seq_has(atoms, y),
        in_gen(g, x),
    ensures
        in_gen(atoms, x),
    decreases x,
{
    if x > 0 {
        if is_atom(g, x) {
            assert(seq_has(atoms, x));
            let j = choose|j: int| 0 <= j < atoms.len() && atoms[j] == x;
            lemma_gen_in(atoms, j);
        } else {
            let a = choose|a: int| 0 < a < x && #[trigger] in_gen(g, a) && in_gen(g, x - a);
            lemma_generated_by_atoms(g, atoms, a);
            lemma_generated_by_atoms(g, atoms, x - a);
            lemma_closed_add(atoms, a, x - a);
        }
    }
}

/// Counting over a stretch where the predicate always holds.
pub proof fn lemma_count_all(p: spec_fn(int) -> bool, n: int, k: int)
    requires
        k >= 0,
        n >= 0,
        forall|x: int| n <= x < n + k ==> #[trigger] p(x),
    ensures
        count_upto(p, n + k) == count_upto(p, n) + k,
    decreases k,
{
    if k > 0 {
        lemma_count_all(p, n, k - 1);
        assert(p(n + k - 1));
    }
}

/// Counting over a stretch where the predicate never holds.
pub proof fn lemma_count_none(p: spec_fn(int) -> bool, n: int, k: int)
    requires
        k >= 0,
        forall|x: int| n <= x < n + k ==> !#[trigger] p(x),
    ensures
        count_upto(p, n + k) == count_upto(p, n),
    decreases k,
{
    if k > 0 {
        lemma_count_none(p, n, k - 1);
        assert(!p(n + k - 1));
    }
}

/// The count never exceeds the range.
pub proof fn lemma_count_le(p: spec_fn(int) -> bool, n: int)
    requires
        n >= 0,
    ensures
        count_upto(p, n) <= n,
    decreases n,
{
    if n > 0 {
        lemma_count_le(p, n - 1);
    }
}

/// Predicates that agree on `0..n` have the same count there.
pub proof fn lemma_count_ext(p: spec_fn(int) -> bool, q: spec_fn(int) -> bool, n: int)
    requires
        forall|x: int| 0 <= x < n ==> #[trigger] p(x) == q(x),
    ensures
        count_upto(p, n) == count_upto(q, n),
    decreases n,
{
    if n > 0 {
        lemma_count_ext(p, q, n - 1);
        assert(p(n - 1) == q(n - 1));
    }
}

/// A predicate that implies another on `0..n` is counted no more often.
pub proof fn lemma_count_mono(p: spec_fn(int) -> bool, q: spec_fn(int) -> bool, n: int)
    requires
        forall|x: int| 0 <= x < n && #[trigger] p(x) ==> q(x),
    ensures
        count_upto(p, n) <= count_upto(q, n),
    decreases n,
{
    if n > 0 {
        lemma_count_mono(p, q, n - 1);
        if p(n - 1) {
            assert(q(n - 1));
        }
    }
}

/// A witness below `n` makes the count positive.
pub proof fn lemma_count_pos(p: spec_fn(int) -> bool, n: int, x: int)
    requires
        0 <= x < n,
        p(x),
    ensures
        count_upto(p, n) >= 1,
    decreases n,
{
    if x < n - 1 {
        lemma_count_pos(p, n - 1, x);
    }
}

/// A positive count has a witness.
pub proof fn lemma_count_witness(p: spec_fn(int) -> bool, n: int)
    requires
        count_upto(p, n) > 0,
    ensures
        exists|x: int| 0 <= x < n && #[trigger] p(x),
    decreases n,
{
    if n > 0 && !p(n - 1) {
        lemma_count_witness(p, n - 1);
    }
}

/// Counting from the bottom: the first point, then the rest shifted down.
pub proof fn lemma_count_first(p: spec_fn(int) -> bool, n: int)
    requires
        n >= 1,
    ensures
        count_upto(p, n) == (if p(0) { 1int } else { 0int }) + count_upto(|x: int| p(x + 1), n - 1),
    decreases n,
{
    if n > 1 {
        lemma_count_first(p, n - 1);
        let q = |x: int| p(x + 1);
        assert(q(n - 2) == p(n - 1));
    } else {
        assert(count_upto(p, 0) == 0);
        assert(count_upto(|x: int| p(x + 1), 0) == 0);
    }
}

/// Counting a range read backwards gives the same number.
pub proof fn lemma_count_reverse(p: spec_fn(int) -> bool, n: int)
    requires
        n >= 0,
    ensures
        count_upto(|x: int| p(n - 1 - x), n) == count_upto(p, n),
    decreases n,
{
    if n > 0 {
        let q = |x: int| p(n - 1 - x);
        lemma_count_first(q, n);
        lemma_count_reverse(p, n - 1);
        assert((|x: int| q(x + 1)) =~= (|x: int| p(n - 1 - 1 - x)));
    }
}

/// Three predicates of which exactly one holds at each point of `0..n`
/// share the range between them.
pub proof fn lemma_count_three(a: spec_fn(int) -> bool, b: spec_fn(int) -> bool, c: spec_fn(int) -> bool, n: int)
    requires
        n >= 0,
        forall|x: int| 0 <= x < n ==> {
            ||| (#[trigger] a(x) && !b(x) && !c(x))
            ||| (!a(x) && b(x) && !c(x))
            ||| (!a(x) && !b(x) && c(x))
        },
    ensures
        count_upto(a, n) + count_upto(b, n) + count_upto(c, n) == n,
    decreases n,
{
    if n > 0 {
        lemma_count_three(a, b, c, n - 1);
        assert(a(n - 1) || !a(n - 1));
    }
}

/// A filtered range has as many entries as the predicate has hits.
pub proof fn lemma_filter_count(p: spec_fn(int) -> bool, n: int)
    ensures
        filter_upto(p, n).len() == count_upto(p, n),
    decreases n,
{
    if n > 0 {
        lemma_filter_count(p, n - 1);
    }
}

/// Counts grow with the range.
pub proof fn lemma_count_grows(p: spec_fn(int) -> bool, a: int, b: int)
    requires
        a <= b,
    ensures
        count_upto(p, a) <= count_upto(p, b),
    decreases b - a,
{
    if a < b {
        lemma_count_grows(p, a, b - 1);
    }
}

/// A hit at `x` is counted before `y > x`: `count(x) < count(y)`.
pub proof fn lemma_count_hit(p: spec_fn(int) -> bool, x: int, y: int)
    requires
        0 <= x < y,
        p(x),
    ensures
        count_upto(p, x) < count_upto(p, y),
{
    lemma_count_grows(p, x + 1, y);
}

/// A shorter filtered range is a prefix of a longer one.
pub proof fn lemma_filter_prefix(p: spec_fn(int) -> bool, a: int, b: int)
    requires
        a <= b,
    ensures
        filter_upto(p, a).len() <= filter_upto(p, b).len(),
        filter_upto(p, b).subrange(0, filter_upto(p, a).len() as int) == filter_upto(p, a),
    decreases b - a,
{
    if a < b {
        lemma_filter_prefix(p, a, b - 1);
        let fa = filter_upto(p, a);
        let fb1 = filter_upto(p, b - 1);
        assert(filter_upto(p, b).subrange(0, fa.len() as int) =~= fb1.subrange(0, fa.len() as int));
    }
}

/// Entry `j` of a filtered range is a hit below `n` with `j` hits before it.
pub proof fn lemma_filter_elem(p: spec_fn(int) -> bool, n: int, j: int)
    requires
        0 <= j < filter_upto(p, n).len(),
        n <= usize::MAX + 1,
    ensures
        p(filter_upto(p, n)[j] as int),
        0 <= filter_upto(p, n)[j] < n,
        count_upto(p, filter_upto(p, n)[j] as int) == j,
    decreases n,
{
    if n > 0 {
        lemma_filter_count(p, n - 1);
        if p(n - 1) && j == filter_upto(p, n - 1).len() {
            assert(filter_upto(p, n)[j] == (n - 1) as usize);
        } else {
            lemma_filter_elem(p, n - 1, j);
        }
    }
}

/// Predicates that agree on `0..n` filter it alike.
pub proof fn lemma_filter_ext(p: spec_fn(int) -> bool, q: spec_fn(int) -> bool, n: int)
    requires
        forall|x: int| 0 <= x < n ==> #[trigger] p(x) == q(x),
    ensures
        filter_upto(p, n) == filter_upto(q, n),
    decreases n,
{
    if n > 0 {
        lemma_filter_ext(p, q, n - 1);
        assert(p(n - 1) == q(n - 1));
    }
}

/// The entries of `filter_upto(p, n)` below `c ≤ n` are exactly
/// `filter_upto(p, c)`: the first `L` of them, when the `L`-th is `≥ c`.
pub proof fn lemma_filter_cut(p: spec_fn(int) -> bool, n: int, c: int, l: int)
    requires
        0 <= c <= n,
        n <= usize::MAX + 1,
        0 <= l <= filter_upto(p, n).len(),
        forall|j: int| 0 <= j < l ==> #[trigger] filter_upto(p, n)[j] < c,
        l < filter_upto(p, n).len() ==> filter_upto(p, n)[l] >= c,
    ensures
        filter_upto(p, n).subrange(0, l) == filter_upto(p, c),
{
    let fc = filter_upto(p, c);
    let fnn = filter_upto(p, n);
    lemma_filter_prefix(p, c, n);
    lemma_filter_count(p, c);
    let lc = fc.len() as int;
    if l < lc {
        assert(fnn[l] == fc[l]);
        lemma_filter_elem(p, c, l);
    }
    if l > lc {
        assert(fnn[lc] < c);
        lemma_filter_elem(p, n, lc);
        let x = fnn[lc] as int;
        lemma_count_hit(p, x, c);
    }
    assert(l == lc);
}

/// A hit below `n` occurs in the filtered range.
pub proof fn lemma_filter_contains(p: spec_fn(int) -> bool, n: int, x: int) -> (k: int)
    requires
        0 <= x < n,
        n <= usize::MAX + 1,
        p(x),
    ensures
        0 <= k < filter_upto(p, n).len(),
        filter_upto(p, n)[k] == x,
    decreases n,
{
    if x == n - 1 {
        filter_upto(p, n - 1).len() as int
    } else {
        lemma_filter_contains(p, n - 1, x)
    }
}

/// A filtered range is no longer than the range.
pub proof fn lemma_filter_len(p: spec_fn(int) -> bool, n: int)
    requires
        n >= 0,
    ensures
        filter_upto(p, n).len() <= n,
    decreases n,
{
    if n > 0 {
        lemma_filter_len(p, n - 1);
    }
}

/// With every generator at least `m`, positive elements are at least `m`.
pub proof fn lemma_positive_ge(g: Seq<usize>, m: int, x: int)
    requires
        forall|i: int| 0 <= i < g.len() ==> #[trigger] g[i] >= m,
        in_gen(g, x),
        x > 0,
    ensures
        x >= m,
{
    lemma_in_gen_unfold(g, x);
    let i = choose|i: int| 0 <= i < g.len() && 0 < g[i] <= x && #[trigger] in_gen(g, x - g[i]);
}

/// A combination of positive numbers with non-negative coefficients is an element.
pub proof fn lemma_nonneg_comb(g: Seq<usize>, e: Seq<int>, k: int)
    requires
        0 <= k <= g.len(),
        k <= e.len(),
        forall|i: int| 0 <= i < k ==> e[i] >= 0,
        forall|i: int| 0 <= i < g.len() ==> g[i] > 0,
    ensures
        in_gen(g, dot(e, g, k)),
    decreases k,
{
    if k > 0 {
        lemma_nonneg_comb(g, e, k - 1);
        lemma_gen_in(g, k - 1);
        lemma_closed_mul(g, e[k - 1] as nat, g[k - 1] as int);
        lemma_closed_add(g, dot(e, g, k - 1), e[k - 1] * g[k - 1]);
    }
}

/// Some element of the monoid not above `bound` leaves residue `r` modulo `m`.
pub open spec fn residue_reached(g: Seq<usize>, m: int, bound: int, r: int) -> bool {
    exists|x: int| #[trigger] in_gen(g, x) && x <= bound && x % m == r
}

/// The residues modulo `m` reached by elements not above `j·big`.
pub open spec fn reached_set(g: Seq<usize>, m: int, big: int, j: int) -> Set<int> {
    Set::new(|r: int| 0 <= r < m && residue_reached(g, m, j * big, r))
}

proof fn lemma_reached_grow(g: Seq<usize>, m: int, big: int, j: int, r: int, i: int)
    requires
        m > 0,
        j >= 0,
        0 <= i < g.len(),
        0 < g[i] <= big,
        reached_set(g, m, big, j).contains(r),
    ensures
        reached_set(g, m, big, j + 1).contains((r + g[i]) % m),
{
    let x = choose|x: int| #[trigger] in_gen(g, x) && x <= j * big && x % m == r;
    lemma_add_gen(g, x, i);
    lemma_add_mod_noop(x, g[i] as int, m);
    lemma_add_mod_noop(r, g[i] as int, m);
    lemma_small_mod(r as nat, m as nat);
    assert((j + 1) * big == j * big + big) by (nonlinear_arith);
    assert(in_gen(g, x + g[i]) && x + g[i] <= (j + 1) * big && (x + g[i]) % m == (r + g[i]) % m);
}

proof fn lemma_reached_mono(g: Seq<usize>, m: int, big: int, j: int)
    requires
        j >= 0,
        big >= 0,
    ensures
        reached_set(g, m, big, j).subset_of(reached_set(g, m, big, j + 1)),
{
    assert forall|r: int| reached_set(g, m, big, j).contains(r) implies reached_set(g, m, big, j + 1).contains(r) by {
        let x = choose|x: int| #[trigger] in_gen(g, x) && x <= j * big && x % m == r;
        assert((j + 1) * big >= j * big) by (nonlinear_arith) requires big >= 0;
        assert(in_gen(g, x) && x <= (j + 1) * big && x % m == r);
    }
}

/// When the reached residues stop growing, every element's residue is reached.
proof fn lemma_reached_closed(g: Seq<usize>, m: int, big: int, j: int, z: int)
    requires
        m > 0,
        j >= 0,
        big >= 0,
        forall|i: int| 0 <= i < g.len() ==> 0 < #[trigger] g[i] <= big,
        reached_set(g, m, big, j + 1).subset_of(reached_set(g, m, big, j)),
        in_gen(g, z),
    ensures
        reached_set(g, m, big, j).contains(z % m),
    decreases z,
{
    if z == 0 {
        assert(0 <= j * big) by (nonlinear_arith) requires j >= 0, big >= 0;
        assert(in_gen(g, 0) && 0 <= j * big && 0int % m == 0);
        assert(residue_reached(g, m, j * big, 0));
    } else {
        lemma_in_gen_unfold(g, z);
        let i = choose|i: int| 0 <= i < g.len() && 0 < g[i] <= z && #[trigger] in_gen(g, z - g[i]);
        lemma_reached_closed(g, m, big, j, z - g[i]);
        lemma_reached_grow(g, m, big, j, (z - g[i]) % m, i);
        lemma_add_mod_noop(z - g[i], g[i] as int, m);
        lemma_add_mod_noop_right((z - g[i]) % m, g[i] as int, m);
    }
}

/// With an element of residue 1 available, every residue is reached once
/// the reached set stops growing.
proof fn lemma_reached_full(g: Seq<usize>, m: int, big: int, j: int, y: int, r: int)
    requires
        m > 0,
        j >= 0,
        big >= 0,
        forall|i: int| 0 <= i < g.len() ==> 0 < #[trigger] g[i] <= big,
        reached_set(g, m, big, j + 1).subset_of(reached_set(g, m, big, j)),
        in_gen(g, y),
        y % m == 1int % m,
        0 <= r < m,
    ensures
        reached_set(g, m, big, j).contains(r),
{
    lemma_closed_mul(g, r as nat, y);
    lemma_reached_closed(g, m, big, j, r * y);
    lemma_mul_mod_noop_right(r, y, m);
    lemma_mul_mod_noop_right(r, 1, m);
    lemma_small_mod(r as nat, m as nat);
}

proof fn lemma_reached_count(g: Seq<usize>, m: int, big: int, j: int, y: int)
    requires
        m > 0,
        j >= 0,
        big >= 0,
        forall|i: int| 0 <= i < g.len() ==> 0 < #[trigger] g[i] <= big,
        in_gen(g, y),
        y % m == 1int % m,
    ensures
        reached_set(g, m, big, j).finite(),
        reached_set(g, m, big, j).len() >= (if j + 1 < m { j + 1 } else { m }),
    decreases j,
{
    lemma_int_range(0, m);
    let rj = reached_set(g, m, big, j);
    assert(rj.subset_of(set_int_range(0, m)));
    lemma_len_subset(rj, set_int_range(0, m));
    if j == 0 {
        assert(0 <= 0 * big);
        assert(in_gen(g, 0) && 0 <= 0 * big && 0int % m == 0);
        assert(rj.contains(0));
        assert(set![0int].subset_of(rj));
        lemma_len_subset(set![0int], rj);
        assert(set![0int].len() == 1);
    } else {
        let rp = reached_set(g, m, big, j - 1);
        lemma_reached_count(g, m, big, j - 1, y);
        lemma_reached_mono(g, m, big, j - 1);
        lemma_len_subset(rp, rj);
        if rp.len() < m {
            if rj.subset_of(rp) {
                assert forall|r: int| set_int_range(0, m).contains(r) implies rp.contains(r) by {
                    lemma_reached_full(g, m, big, j - 1, y, r);
                }
                assert(set_int_range(0, m).subset_of(rp));
                lemma_len_subset(set_int_range(0, m), rp);
                assert(false);
            }
            let r = choose|r: int| rj.contains(r) && !rp.contains(r);
            assert(rp.subset_of(rj.remove(r)));
            lemma_len_subset(rp, rj.remove(r));
        }
    }
}

/// Residues of a monoid with an element of residue 1 modulo `m`: every
/// residue is reached by an element not above `(m - 1)·big`, where `big`
/// bounds the generators.
pub proof fn lemma_all_residues_reached(g: Seq<usize>, m: int, big: int, y: int, r: int)
    requires
        m > 0,
        big >= 0,
        forall|i: int| 0 <= i < g.len() ==> 0 < #[trigger] g[i] <= big,
        in_gen(g, y),
        y % m == 1int % m,
        0 <= r < m,
    ensures
        exists|x: int| #[trigger] in_gen(g, x) && x <= (m - 1) * big && x % m == r,
{
    lemma_reached_count(g, m, big, m - 1, y);
    lemma_int_range(0, m);
    let rs = reached_set(g, m, big, m - 1);
    assert(rs.subset_of(set_int_range(0, m)));
    lemma_len_subset(rs, set_int_range(0, m));
    lemma_subset_equality(rs, set_int_range(0, m));
    assert(set_int_range(0, m).contains(r));
    assert(rs.contains(r));
}

} // verus!
