//! Generator lists built from explicit parameters, from primes, or at
//! random. Callers close them with [`compute`](crate::compute::compute).
use vstd::prelude::*;
use rand::Rng;
use rand::seq::SliceRandom;
use crate::generated::{filter_upto, seq_has};

verus! {

/// The primes sampled by [`random_primes_subset`]: the 25 primes below 100.
pub const PRIMES_LIST: [usize; 25] = [
    2, 3, 5, 7, 11, 13, 17, 19, 23, 29, 31, 37, 41, 43, 47, 53, 59, 61, 67, 71, 73, 79, 83, 89, 97,
];

/// `T(m, f)`: the list `m, f + 1, f + 2, …, f + m`.
pub fn tmf_generators(m: usize, f: usize) -> (gens: Vec<usize>)
    requires
        f + m <= usize::MAX,
    ensures
        gens@ == seq![m] + Seq::new(m as nat, |i: int| (f + 1 + i) as usize),
{
    let mut gens: Vec<usize> = Vec::new();
    gens.push(m);
    let mut i: usize = 0;
    while i < m
        invariant
            f + m <= usize::MAX,
            i <= m,
            gens@ == seq![m] + Seq::new(i as nat, |j: int| (f + 1 + j) as usize),
        decreases m - i,
    {
        gens.push(f + 1 + i);
        i = i + 1;
        proof {
            assert(gens@ =~= seq![m] + Seq::new(i as nat, |j: int| (f + 1 + j) as usize));
        }
    }
    gens
}

/// `A(m, d, n)`: the arithmetic list `m, m + d, m + 2d, …, m + nd`.
pub fn arith_generators(m: usize, d: usize, n: usize) -> (gens: Vec<usize>)
    requires
        m + n * d <= usize::MAX,
        n < usize::MAX,
    ensures
        gens@ == Seq::new((n + 1) as nat, |i: int| (m + i * d) as usize),
{
    let mut gens: Vec<usize> = Vec::new();
    let mut i: usize = 0;
    while i <= n
        invariant
            m + n * d <= usize::MAX,
            n < usize::MAX,
            i <= n + 1,
            gens@ == Seq::new(i as nat, |j: int| (m + j * d) as usize),
        decreases n + 1 - i,
    {
        proof {
            assert(i * d <= n * d) by (nonlinear_arith) requires i <= n, d >= 0;
        }
        gens.push(m + i * d);
        i = i + 1;
        proof {
            assert(gens@ =~= Seq::new(i as nat, |j: int| (m + j * d) as usize));
        }
    }
    gens
}

/// A uniformly random integer in `lo..=hi`, from the thread-local generator
/// by `rand::Rng::gen_range`. Only the range of the result is stated.
#[verifier::external_body]
fn random_between(lo: usize, hi: usize) -> (r: usize)
    requires
        lo <= hi,
    ensures
        lo <= r <= hi,
{
    rand::thread_rng().gen_range(lo..=hi)
}

/// `amount` entries of `list` (all of them when `amount` exceeds its
/// length) drawn at random without repetition and in random order, by
/// `rand::seq::SliceRandom::choose_multiple` on the thread-local generator.
/// Stated: the length, that every entry comes from `list`, and that the
/// entries are distinct when those of `list` are; the order is random.
#[verifier::external_body]
fn choose_distinct(list: &[usize], amount: usize) -> (r: Vec<usize>)
    ensures
        r@.len() == if amount < list@.len() { amount as nat } else { list@.len() },
        forall|i: int| 0 <= i < r@.len() ==> seq_has(list@, #[trigger] r@[i] as int),
        (forall|a: int, b: int| 0 <= a < b < list@.len() ==> #[trigger] list@[a] != #[trigger] list@[b])
            ==> forall|i: int, j: int| 0 <= i < j < r@.len() ==> #[trigger] r@[i] != #[trigger] r@[j],
{
    list.choose_multiple(&mut rand::thread_rng(), amount).copied().collect()
}

/// Eight random integers in `[10, 100]`.
pub fn random_generators() -> (gens: Vec<usize>)
    ensures
        gens@.len() == 8,
        forall|i: int| 0 <= i < 8 ==> 10 <= #[trigger] gens@[i] <= 100,
{
    let mut gens: Vec<usize> = Vec::new();
    let mut i: usize = 0;
    while i < 8
        invariant
            i <= 8,
            gens@.len() == i,
            forall|j: int| 0 <= j < i ==> 10 <= #[trigger] gens@[j] <= 100,
        decreases 8 - i,
    {
        gens.push(random_between(10, 100));
        i = i + 1;
    }
    gens
}

/// Four to eight distinct primes from [`PRIMES_LIST`], drawn at random, in
/// increasing order.
pub fn random_primes_subset() -> (primes: Vec<usize>)
    ensures
        4 <= primes@.len() <= 8,
        forall|i: int| 0 <= i < primes@.len() ==> seq_has(PRIMES_LIST@, #[trigger] primes@[i] as int),
        crate::arith::strictly_increasing(primes@),
{
    let count = random_between(4, 8);
    let list = PRIMES_LIST;
    proof {
        assert(list@.len() == 25);
        assert forall|a: int, b: int| 0 <= a < b < list@.len() implies #[trigger] list@[a] != #[trigger] list@[b] by {
            assert(list@ == PRIMES_LIST@);
        }
    }
    let chosen = choose_distinct(&list, count);
    let sorted = crate::arith::sort_ascending(&chosen);
    proof {
        assert forall|i: int| 0 <= i < sorted@.len() implies seq_has(PRIMES_LIST@, #[trigger] sorted@[i] as int) by {
            assert(sorted@.contains(sorted@[i]));
            assert(chosen@.contains(sorted@[i]));
            let j = choose|j: int| 0 <= j < chosen@.len() && chosen@[j] == sorted@[i];
            assert(seq_has(list@, chosen@[j] as int));
        }
        assert(chosen@.no_duplicates());
        crate::arith::lemma_sorted_distinct(sorted@, chosen@);
    }
    sorted
}


#[verifier::external_type_specification]
#[verifier::external_body]
pub struct ExSieve(primal::Sieve);

/// The end of the range of numbers a `primal::Sieve` covers (`upper_bound`).
pub uninterp spec fn sieve_bound(s: primal::Sieve) -> usize;

/// `n` is prime.
pub open spec fn is_prime(n: int) -> bool {
    n >= 2 && forall|d: int| 2 <= d < n ==> #[trigger] (n % d) != 0
}

/// Primes as a predicate.
pub open spec fn prime_pred() -> spec_fn(int) -> bool {
    |x: int| is_prime(x)
}

/// The primes from `n` on, as a predicate.
pub open spec fn primes_from_pred(n: int) -> spec_fn(int) -> bool {
    |x: int| is_prime(x) && n <= x
}

/// `p` is the `k`-th prime (1-indexed): a prime with `k − 1` primes below it.
pub open spec fn is_nth_prime(k: int, p: int) -> bool {
    is_prime(p) && crate::generated::count_upto(prime_pred(), p) == k - 1
}

/// `primal::estimate_nth_prime(n).1`: its documentation promises an upper
/// bound on the `n`-th prime (`p_n ≤ r`), so at least `n` primes lie in
/// `0..=r`. For `n ≤ 54` the source reads the answer from its table of the
/// first 54 primes (all below 256), so there `r` is the `n`-th prime itself;
/// beyond the table the value is computed in floating point and is not
/// stated. It asserts `n` below its documented input limit.
#[verifier::external_body]
fn estimate_high(n: u64) -> (r: u64)
    requires
        1 <= n <= 425281711831682432,
    ensures
        crate::generated::count_upto(prime_pred(), r + 1) >= n,
        n <= 54 ==> is_nth_prime(n as int, r as int) && r < 256,
{
    primal::estimate_nth_prime(n).1
}

/// `primal::Sieve::new(limit)`: its documentation promises a range reaching
/// at least `limit`.
#[verifier::external_body]
fn make_sieve(limit: usize) -> (s: primal::Sieve)
    ensures
        sieve_bound(s) >= limit,
{
    primal::Sieve::new(limit)
}

/// `primal::Sieve::primes_from(0).nth(k)`: the primes of the sieve's range
/// come out in increasing order, so this is entry `k` of the primes in
/// `0..=upper_bound`, if there are that many (2, 3 and 5 come out first
/// whatever the range, hence the range is asked to reach 5).
#[verifier::external_body]
fn sieve_nth_prime(s: &primal::Sieve, k: usize) -> (r: Option<usize>)
    requires
        sieve_bound(*s) >= 5,
    ensures
        ({
            let ps = filter_upto(prime_pred(), sieve_bound(*s) as int + 1);
            r == (if k < ps.len() { Some(ps[k as int]) } else { None::<usize> })
        }),
{
    s.primes_from(0).nth(k)
}

/// `primal::Sieve::primes_from(n)`, collected: the primes in
/// `n..=upper_bound`, increasing (it panics for `n` beyond the range; 2, 3
/// and 5 come out whatever the range, hence the range is asked to reach 5).
#[verifier::external_body]
fn sieve_primes_from(s: &primal::Sieve, n: usize) -> (v: Vec<usize>)
    requires
        n <= sieve_bound(*s),
        sieve_bound(*s) >= 5,
    ensures
        v@ == filter_upto(primes_from_pred(n as int), sieve_bound(*s) as int + 1),
{
    s.primes_from(n).collect()
}

/// `max(n, 1)`.
pub open spec fn rolf_index(n: int) -> int {
    if n < 1 { 1 } else { n }
}

/// Primes in `[p, 5p]`.
pub open spec fn rolf_pred(p: int) -> spec_fn(int) -> bool {
    |x: int| is_prime(x) && p <= x && x <= 5 * p
}

/// The list of [`rolf_primes`] for the prime `p`: the primes in `[p, 5p]`.
pub open spec fn rolf_list(p: int) -> Seq<usize> {
    filter_upto(rolf_pred(p), 5 * p + 1)
}

/// There is only one `k`-th prime.
pub proof fn lemma_nth_prime_unique(k: int, p: int, q: int)
    requires
        is_nth_prime(k, p),
        is_nth_prime(k, q),
    ensures
        p == q,
{
    if p < q {
        crate::generated::lemma_count_hit(prime_pred(), p, q);
    }
    if q < p {
        crate::generated::lemma_count_hit(prime_pred(), q, p);
    }
}

/// The "Rolf primes" list for a sieve limit `limit = 5·high` with `high`
/// an upper bound of the `idx`-th prime: `p_idx` and every prime `p` with
/// `p_idx < p ≤ 5·p_idx`.
fn rolf_from_bound(idx: usize, high: usize) -> (primes: Vec<usize>)
    requires
        idx >= 1,
        high <= usize::MAX / 5,
        crate::generated::count_upto(prime_pred(), high + 1) >= idx,
    ensures
        primes@.len() > 0,
        is_nth_prime(idx as int, primes@[0] as int),
        primes@ == rolf_list(primes@[0] as int),
{
    proof {
        crate::generated::lemma_count_witness(prime_pred(), high + 1);
    }
    let limit = high * 5;
    let sieve = make_sieve(limit);
    let ghost b: int = sieve_bound(sieve) as int + 1;
    let ghost all0 = filter_upto(prime_pred(), b);
    proof {
        crate::generated::lemma_count_grows(prime_pred(), high + 1, b);
        crate::generated::lemma_filter_count(prime_pred(), b);
        crate::generated::lemma_filter_count(prime_pred(), high + 1);
        crate::generated::lemma_filter_prefix(prime_pred(), high + 1, b);
    }
    let pn = match sieve_nth_prime(&sieve, idx - 1) {
        Some(p) => p,
        None => 2,
    };
    proof {
        let fh = filter_upto(prime_pred(), high + 1);
        assert(pn == all0[idx - 1]);
        assert(all0[idx - 1] == fh[idx - 1]);
        crate::generated::lemma_filter_elem(prime_pred(), high + 1, idx - 1);
        assert(pn <= high);
        assert(is_nth_prime(idx as int, pn as int));
    }
    let all = sieve_primes_from(&sieve, pn);
    let ghost q = primes_from_pred(pn as int);
    let top = 5 * pn;
    let mut primes: Vec<usize> = Vec::new();
    let mut k: usize = 0;
    while k < all.len()
        invariant_except_break
            k <= all@.len(),
            all@ == filter_upto(q, b),
            primes@ == all@.subrange(0, k as int),
            forall|j: int| 0 <= j < k ==> #[trigger] all@[j] <= top,
        ensures
            k <= all@.len(),
            all@ == filter_upto(q, b),
            primes@ == all@.subrange(0, k as int),
            forall|j: int| 0 <= j < k ==> #[trigger] all@[j] <= top,
            k < all@.len() ==> all@[k as int] > top,
        decreases all.len() - k,
    {
        if all[k] > top {
            break;
        }
        primes.push(all[k]);
        proof {
            assert(primes@ =~= all@.subrange(0, k + 1));
        }
        k = k + 1;
    }
    proof {
        assert(b <= usize::MAX + 1);
        crate::generated::lemma_filter_cut(q, b, 5 * pn + 1, k as int);
        assert(forall|x: int| 0 <= x < 5 * pn + 1 ==> #[trigger] q(x) == rolf_pred(pn as int)(x));
        crate::generated::lemma_filter_ext(q, rolf_pred(pn as int), 5 * pn + 1);
        let r = rolf_pred(pn as int);
        assert(r(pn as int));
        crate::generated::lemma_filter_count(r, 5 * pn + 1);
        crate::generated::lemma_count_pos(r, 5 * pn + 1, pn as int);
        crate::generated::lemma_filter_elem(r, 5 * pn + 1, 0);
        let x = primes@[0] as int;
        if x > pn {
            crate::generated::lemma_count_hit(r, pn as int, x);
        }
        assert(primes@[0] == pn);
    }
    primes
}

/// The "Rolf primes" list: `p_n` and every prime `p` with `p_n < p ≤ 5·p_n`,
/// where `p_1 = 2` and `n` is raised to at least 1; found with a sieve up to
/// five times primal's upper estimate of `p_n` (see [`rolf_primes_within`]).
/// `None` when that limit does not fit in a `usize`, which never happens
/// for `n ≤ 54`, where primal reads `p_n` from its table; beyond that the
/// estimate is a floating-point bound whose value the contract leaves open.
pub fn rolf_primes_checked(n: usize) -> (r: Option<Vec<usize>>)
    requires
        rolf_index(n as int) <= 425281711831682432,
    ensures
        rolf_index(n as int) <= 54 ==> r is Some,
        r matches Some(primes) ==> {
            &&& primes@.len() > 0
            &&& is_nth_prime(rolf_index(n as int), primes@[0] as int)
            &&& primes@ == rolf_list(primes@[0] as int)
        },
{
    let idx = if n < 1 { 1 } else { n };
    let high = estimate_high(idx as u64);
    proof {
        if idx <= 54 {
            assert(high <= usize::MAX / 5);
        }
    }
    rolf_primes_within(idx, high)
}

/// The "Rolf primes" list of the `idx`-th prime `p` for an upper bound
/// `high` of `p`: the primes in `[p, 5p]`, found with a sieve up to
/// `5·high`; `None` exactly when `5·high` does not fit in a `usize`.
pub fn rolf_primes_within(idx: usize, high: u64) -> (r: Option<Vec<usize>>)
    requires
        idx >= 1,
        crate::generated::count_upto(prime_pred(), high + 1) >= idx,
    ensures
        r is None <==> high > usize::MAX / 5,
        r matches Some(primes) ==> {
            &&& primes@.len() > 0
            &&& is_nth_prime(idx as int, primes@[0] as int)
            &&& primes@ == rolf_list(primes@[0] as int)
        },
{
    if high > (usize::MAX / 5) as u64 {
        return None;
    }
    Some(rolf_from_bound(idx, high as usize))
}

/// The "Rolf primes" list of [`rolf_primes_checked`]; empty where that is
/// `None` (never for `n ≤ 54`), and otherwise never empty.
pub fn rolf_primes(n: usize) -> (primes: Vec<usize>)
    requires
        rolf_index(n as int) <= 425281711831682432,
    ensures
        rolf_index(n as int) <= 54 ==> primes@.len() > 0,
        primes@.len() > 0 ==> {
            &&& is_nth_prime(rolf_index(n as int), primes@[0] as int)
            &&& primes@ == rolf_list(primes@[0] as int)
        },
{
    match rolf_primes_checked(n) {
        Some(v) => v,
        None => Vec::new(),
    }
}

} // verus!
