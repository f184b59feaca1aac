//! Greatest common divisors, binomial coefficients, sums and sorting of
//! lists of numbers.
use vstd::prelude::*;

verus! {

/// The greatest common divisor, by Euclid's recursion.
pub open spec fn spec_gcd(a: nat, b: nat) -> nat
    decreases b,
{
    if b == 0 {
        a
    } else {
        spec_gcd(b, a % b)
    }
}

/// `gcd(a, b)` divides `a` and `b`: the cofactors are returned.
pub proof fn lemma_gcd_divides(a: nat, b: nat) -> (k: (nat, nat))
    ensures
        a == k.0 * spec_gcd(a, b),
        b == k.1 * spec_gcd(a, b),
    decreases b,
{
    if b == 0 {
        assert(a == 1 * a);
        assert(0 == 0 * a);
        (1, 0)
    } else {
        let g = spec_gcd(a, b);
        let r = a % b;
        let q = a / b;
        let (k1, k2) = lemma_gcd_divides(b, r);
        assert(a == q * b + r) by (nonlinear_arith) requires q == a / b, r == a % b, b > 0;
        assert(a == (q * k1 + k2) * g) by (nonlinear_arith)
            requires a == q * b + r, b == k1 * g, r == k2 * g;
        ((q * k1 + k2) as nat, k1)
    }
}

/// Bezout's identity: `a·x + b·y = gcd(a, b)` for some integers `x, y`.
pub proof fn lemma_bezout(a: nat, b: nat) -> (c: (int, int))
    ensures
        a * c.0 + b * c.1 == spec_gcd(a, b),
    decreases b,
{
    if b == 0 {
        (1, 0)
    } else {
        let r = a % b;
        let q = a / b;
        let (x, y) = lemma_bezout(b, r);
        assert(a == q * b + r) by (nonlinear_arith) requires q == a / b, r == a % b, b > 0;
        assert(a * y + b * (x - q * y) == b * x + r * y) by (nonlinear_arith)
            requires a == q * b + r;
        (y, x - q * y)
    }
}

/// The gcd of two numbers, one of them positive, is positive.
pub proof fn lemma_gcd_pos(a: nat, b: nat)
    requires
        a > 0 || b > 0,
    ensures
        spec_gcd(a, b) > 0,
{
    let (ka, kb) = lemma_gcd_divides(a, b);
    if spec_gcd(a, b) == 0 {
        assert(ka * 0 == 0 && kb * 0 == 0) by (nonlinear_arith);
    }
}

/// The gcd of `s[0], …, s[k-1]`, folded from the left as [`gcd_vec`] does.
pub open spec fn gcd_seq(s: Seq<usize>, k: int) -> nat
    decreases k,
{
    if k <= 1 {
        s[0] as nat
    } else {
        spec_gcd(gcd_seq(s, k - 1), s[k - 1] as nat)
    }
}

/// `Σ_{i<k} c[i]·s[i]`.
pub open spec fn dot(c: Seq<int>, s: Seq<usize>, k: int) -> int
    decreases k,
{
    if k <= 0 {
        0
    } else {
        dot(c, s, k - 1) + c[k - 1] * s[k - 1]
    }
}

/// Scaling the coefficients scales the combination.
pub proof fn lemma_dot_scale(c: Seq<int>, s: Seq<usize>, k: int, x: int)
    requires
        0 <= k <= c.len(),
    ensures
        dot(Seq::new(c.len(), |i: int| c[i] * x), s, k) == x * dot(c, s, k),
    decreases k,
{
    if k > 0 {
        lemma_dot_scale(c, s, k - 1, x);
        let cx = Seq::new(c.len(), |i: int| c[i] * x);
        assert(cx[k - 1] * s[k - 1] == x * (c[k - 1] * s[k - 1])) by (nonlinear_arith)
            requires cx[k - 1] == c[k - 1] * x;
        assert(x * dot(c, s, k - 1) + x * (c[k - 1] * s[k - 1]) == x * (dot(c, s, k - 1) + c[k - 1] * s[k - 1])) by (nonlinear_arith);
    }
}

/// Each of `s[0], …, s[k-1]` is a multiple of their gcd; the cofactor of `s[i]` is returned.
pub proof fn lemma_gcd_seq_divides(s: Seq<usize>, k: int, i: int) -> (q: nat)
    requires
        0 <= i < k <= s.len(),
    ensures
        s[i] == q * gcd_seq(s, k),
    decreases k,
{
    if k <= 1 {
        assert(s[i] == 1 * s[i]);
        1
    } else {
        let d = gcd_seq(s, k - 1);
        let (ka, kb) = lemma_gcd_divides(d, s[k - 1] as nat);
        if i == k - 1 {
            kb
        } else {
            let q = lemma_gcd_seq_divides(s, k - 1, i);
            let g = gcd_seq(s, k);
            assert(s[i] == (q * ka) * g) by (nonlinear_arith) requires s[i] == q * d, d == ka * g;
            q * ka
        }
    }
}

/// Bezout's identity for `s[0], …, s[k-1]`.
pub proof fn lemma_gcd_seq_bezout(s: Seq<usize>, k: int) -> (c: Seq<int>)
    requires
        1 <= k <= s.len(),
    ensures
        c.len() == k,
        dot(c, s, k) == gcd_seq(s, k),
    decreases k,
{
    if k == 1 {
        let c = seq![1int];
        assert(c[0] == 1);
        assert(dot(c, s, 1) == dot(c, s, 0) + c[0] * s[0]);
        assert(dot(c, s, 0) == 0);
        c
    } else {
        let c0 = lemma_gcd_seq_bezout(s, k - 1);
        let d = gcd_seq(s, k - 1);
        let (x, y) = lemma_bezout(d, s[k - 1] as nat);
        let cx = Seq::new(c0.len(), |i: int| c0[i] * x);
        lemma_dot_scale(c0, s, k - 1, x);
        let c = cx.push(y);
        assert forall|j: int| 0 <= j <= k - 1 implies dot(c, s, j) == dot(cx, s, j) by {
            lemma_dot_prefix(c, cx, s, j);
        }
        assert(dot(c, s, k) == dot(cx, s, k - 1) + y * s[k - 1]);
        assert(x * d == d * x) by (nonlinear_arith);
        assert(y * s[k - 1] == (s[k - 1] as nat) * y) by (nonlinear_arith);
        assert(dot(c0, s, k - 1) == d);
        c
    }
}

/// `dot` only reads the first `k` coefficients.
pub proof fn lemma_dot_prefix(c1: Seq<int>, c2: Seq<int>, s: Seq<usize>, k: int)
    requires
        0 <= k,
        k <= c1.len(),
        k <= c2.len(),
        forall|i: int| 0 <= i < k ==> c1[i] == c2[i],
    ensures
        dot(c1, s, k) == dot(c2, s, k),
    decreases k,
{
    if k > 0 {
        lemma_dot_prefix(c1, c2, s, k - 1);
    }
}

/// Greatest common divisor of two numbers (`gcd(0, b) = b`).
pub fn gcd(a0: usize, b0: usize) -> (d: usize)
    ensures
        d == spec_gcd(a0 as nat, b0 as nat),
{
    let mut a = a0;
    let mut b = b0;
    while b != 0
        invariant
            spec_gcd(a as nat, b as nat) == spec_gcd(a0 as nat, b0 as nat),
        decreases b,
    {
        let t = a % b;
        a = b;
        b = t;
    }
    a
}

/// The sum of the entries.
pub open spec fn seq_sum(s: Seq<usize>) -> int
    decreases s.len(),
{
    if s.len() == 0 {
        0
    } else {
        seq_sum(s.drop_last()) + s.last()
    }
}

/// Updating one entry changes the sum by the difference.
pub proof fn lemma_seq_sum_update(s: Seq<usize>, r: int, v: usize)
    requires
        0 <= r < s.len(),
    ensures
        seq_sum(s.update(r, v)) == seq_sum(s) - s[r] + v,
    decreases s.len(),
{
    let t = s.update(r, v);
    if r == s.len() - 1 {
        assert(t.drop_last() =~= s.drop_last());
    } else {
        lemma_seq_sum_update(s.drop_last(), r, v);
        assert(t.drop_last() =~= s.drop_last().update(r, v));
    }
}

/// A sum of `len` entries, each at most `b`, is at most `len·b`.
pub proof fn lemma_seq_sum_bound(s: Seq<usize>, b: int)
    requires
        forall|i: int| 0 <= i < s.len() ==> #[trigger] s[i] <= b,
    ensures
        seq_sum(s) <= s.len() * b,
        seq_sum(s) >= 0,
    decreases s.len(),
{
    if s.len() > 0 {
        lemma_seq_sum_bound(s.drop_last(), b);
        assert(s.drop_last().len() * b + b == s.len() * b) by (nonlinear_arith)
            requires s.drop_last().len() + 1 == s.len();
    }
}

/// A sum of entries each at least its index is at least `0 + 1 + … + (len − 1)`.
pub proof fn lemma_seq_sum_lower(s: Seq<usize>)
    requires
        forall|i: int| 0 <= i < s.len() ==> #[trigger] s[i] >= i,
    ensures
        2 * seq_sum(s) >= s.len() * (s.len() - 1),
    decreases s.len(),
{
    if s.len() > 0 {
        let n = s.len() as int;
        lemma_seq_sum_lower(s.drop_last());
        assert(s[n - 1] >= n - 1);
        assert((n - 1) * (n - 2) + 2 * (n - 1) == n * (n - 1)) by (nonlinear_arith);
    }
}

/// `s` is sorted in non-decreasing order.
pub open spec fn sorted(s: Seq<usize>) -> bool {
    forall|i: int, j: int| 0 <= i <= j < s.len() ==> s[i] <= s[j]
}

/// `s` is sorted in strictly increasing order.
pub open spec fn strictly_increasing(s: Seq<usize>) -> bool {
    forall|i: int, j: int| 0 <= i < j < s.len() ==> s[i] < s[j]
}

/// Sorts a list in non-decreasing order (insertion sort).
pub fn sort_ascending(v: &Vec<usize>) -> (out: Vec<usize>)
    ensures
        out@.len() == v@.len(),
        sorted(out@),
        forall|x: usize| out@.contains(x) <==> v@.contains(x),
{
    let mut out: Vec<usize> = Vec::new();
    let mut k: usize = 0;
    while k < v.len()
        invariant
            k <= v@.len(),
            out@.len() == k,
            sorted(out@),
            forall|x: usize| out@.contains(x) <==> v@.subrange(0, k as int).contains(x),
        decreases v@.len() - k,
    {
        let x = v[k];
        let mut pos: usize = 0;
        while pos < out.len() && out[pos] <= x
            invariant
                pos <= out@.len(),
                forall|j: int| 0 <= j < pos ==> out@[j] <= x,
            decreases out@.len() - pos,
        {
            pos = pos + 1;
        }
        let ghost old_out = out@;
        out.insert(pos, x);
        assert(out@ == old_out.insert(pos as int, x));
        assert forall|a: int, b: int| 0 <= a <= b < out@.len() implies out@[a] <= out@[b] by {
            if pos < old_out.len() {
                assert(old_out[pos as int] > x);
            }
        }
        assert(v@.subrange(0, k + 1) == v@.subrange(0, k as int).push(x));
        assert forall|y: usize| out@.contains(y) <==> v@.subrange(0, k + 1).contains(y) by {
            let sub = v@.subrange(0, k + 1);
            let pre = v@.subrange(0, k as int);
            if out@.contains(y) {
                let j = choose|j: int| 0 <= j < out@.len() && out@[j] == y;
                if j == pos {
                    assert(sub[k as int] == y);
                } else {
                    if j < pos {
                        assert(old_out[j] == y);
                    } else {
                        assert(old_out[j - 1] == y);
                    }
                    assert(old_out.contains(y));
                    assert(pre.contains(y));
                    let jj = choose|jj: int| 0 <= jj < pre.len() && #[trigger] pre[jj] == y;
                    assert(sub[jj] == y);
                }
            }
            if sub.contains(y) {
                let j = choose|j: int| 0 <= j < sub.len() && #[trigger] sub[j] == y;
                if j == k {
                    assert(out@[pos as int] == y);
                } else {
                    assert(pre[j] == y);
                    assert(pre.contains(y));
                    assert(old_out.contains(y));
                    let jj = choose|jj: int| 0 <= jj < old_out.len() && old_out[jj] == y;
                    if jj < pos {
                        assert(out@[jj] == y);
                    } else {
                        assert(out@[jj + 1] == y);
                    }
                }
            }
        }
        k = k + 1;
    }
    assert(v@.subrange(0, v@.len() as int) == v@);
    out
}

/// Greatest common divisor of a non-empty list, folded from the left.
pub fn gcd_vec(numbers: &[usize]) -> (d: usize)
    requires
        numbers@.len() >= 1,
    ensures
        d == gcd_seq(numbers@, numbers@.len() as int),
{
    let mut d = numbers[0];
    let mut k: usize = 1;
    while k < numbers.len()
        invariant
            1 <= k <= numbers@.len(),
            d == gcd_seq(numbers@, k as int),
        decreases numbers@.len() - k,
    {
        d = gcd(d, numbers[k]);
        k = k + 1;
    }
    d
}


/// The binomial coefficient `C(n, k)`, by Pascal's rule (0 for `k > n`).
pub open spec fn binom_spec(n: nat, k: nat) -> nat
    decreases n,
{
    if k == 0 {
        1
    } else if n == 0 {
        0
    } else {
        binom_spec((n - 1) as nat, (k - 1) as nat) + binom_spec((n - 1) as nat, k)
    }
}

/// Pascal's rule: `C(n, k) = C(n − 1, k − 1) + C(n − 1, k)` for `1 ≤ k`, `1 ≤ n`.
pub proof fn lemma_pascal(n: nat, k: nat)
    requires
        n >= 1,
        k >= 1,
    ensures
        binom_spec(n, k) == binom_spec((n - 1) as nat, (k - 1) as nat) + binom_spec((n - 1) as nat, k),
{
}

/// `C(n, k) = 0` for `k > n`, and `C(n, n) = 1`.
pub proof fn lemma_binom_edges(n: nat, k: nat)
    ensures
        k > n ==> binom_spec(n, k) == 0,
        binom_spec(n, n) == 1,
    decreases n,
{
    if n > 0 {
        lemma_binom_edges((n - 1) as nat, (k - 1) as nat);
        lemma_binom_edges((n - 1) as nat, k);
        lemma_binom_edges((n - 1) as nat, (n - 1) as nat);
        lemma_binom_edges((n - 1) as nat, n);
    }
}

/// The lattice-path count `C(x + y, y)`.
pub open spec fn grid(x: nat, y: nat) -> nat {
    binom_spec(x + y, y)
}

/// The lattice-path recurrence `grid(x, y) = grid(x, y − 1) + grid(x − 1, y)`,
/// with `grid(0, y) = grid(x, 0) = 1`.
proof fn lemma_grid(x: nat, y: nat)
    ensures
        y == 0 ==> grid(x, y) == 1,
        x == 0 ==> grid(x, y) == 1,
        x >= 1 && y >= 1 ==> grid(x, y) == grid(x, (y - 1) as nat) + grid((x - 1) as nat, y),
{
    lemma_binom_edges(x + y, y);
    if x >= 1 && y >= 1 {
        assert((x + y - 1) as nat == x + (y - 1) as nat);
        assert((x + y - 1) as nat == (x - 1) as nat + y);
    }
}

/// `grid` grows in each coordinate.
proof fn lemma_grid_mono(x: nat, y: nat, xx: nat, yy: nat)
    requires
        x <= xx,
        y <= yy,
    ensures
        grid(x, y) <= grid(xx, yy),
    decreases xx + yy,
{
    if xx > x {
        lemma_grid_mono(x, y, (xx - 1) as nat, yy);
        lemma_grid(xx, yy);
    } else if yy > y {
        lemma_grid_mono(x, y, xx, (yy - 1) as nat);
        lemma_grid(xx, yy);
    }
}

/// `grid` is symmetric.
proof fn lemma_grid_symmetric(x: nat, y: nat)
    ensures
        grid(x, y) == grid(y, x),
    decreases x + y,
{
    lemma_grid(x, y);
    lemma_grid(y, x);
    if x >= 1 && y >= 1 {
        lemma_grid_symmetric(x, (y - 1) as nat);
        lemma_grid_symmetric((x - 1) as nat, y);
    }
}

/// Symmetry of the binomial coefficients: `C(n, k) = C(n, n − k)` for `k ≤ n`.
pub proof fn lemma_binom_symmetric(n: nat, k: nat)
    requires
        k <= n,
    ensures
        binom_spec(n, k) == binom_spec(n, (n - k) as nat),
{
    lemma_grid_symmetric((n - k) as nat, k);
    assert((n - k) as nat + k == n);
    assert(k + (n - k) as nat == n);
}

/// `C(a, b)`, or `None` when it does not fit in a `usize`; `Some(0)` for `b > a`.
pub fn binom(a: usize, b: usize) -> (r: Option<usize>)
    ensures
        r == (if binom_spec(a as nat, b as nat) <= usize::MAX { Some(binom_spec(a as nat, b as nat) as usize) } else { None }),
{
    if b > a {
        proof {
            lemma_binom_edges(a as nat, b as nat);
        }
        return Some(0);
    }
    let w = a - b;
    let mut row: Vec<usize> = Vec::new();
    while row.len() <= b
        invariant
            row@.len() <= b + 1,
            forall|j: int| 0 <= j < row@.len() ==> #[trigger] row@[j] == grid(0, j as nat),
        decreases b + 1 - row@.len(),
    {
        proof {
            lemma_grid(0, row@.len());
        }
        row.push(1);
    }
    let mut x: usize = 0;
    while x < w
        invariant
            w == a - b,
            x <= w,
            row@.len() == b + 1,
            forall|j: int| 0 <= j <= b ==> #[trigger] row@[j] == grid(x as nat, j as nat),
        decreases w - x,
    {
        x = x + 1;
        proof {
            lemma_grid(x as nat, 0);
        }
        row.set(0, 1);
        let mut y: usize = 0;
        while y < b
            invariant
                w == a - b,
                1 <= x <= w,
                y <= b,
                row@.len() == b + 1,
                forall|j: int| 0 <= j <= y ==> #[trigger] row@[j] == grid(x as nat, j as nat),
                forall|j: int| y < j <= b ==> #[trigger] row@[j] == grid((x - 1) as nat, j as nat),
            decreases b - y,
        {
            y = y + 1;
            proof {
                lemma_grid(x as nat, y as nat);
            }
            match row[y - 1].checked_add(row[y]) {
                Some(v) => {
                    row.set(y, v);
                },
                None => {
                    proof {
                        lemma_grid_mono(x as nat, y as nat, w as nat, b as nat);
                        assert(w as nat + b as nat == a as nat);
                    }
                    return None;
                },
            }
        }
    }
    proof {
        assert(w as nat + b as nat == a as nat);
    }
    Some(row[b])
}


/// A sorted list with the same length and entries as a list without
/// repetitions is strictly increasing.
pub proof fn lemma_sorted_distinct(s: Seq<usize>, t: Seq<usize>)
    requires
        sorted(s),
        t.no_duplicates(),
        s.len() == t.len(),
        forall|x: usize| s.contains(x) <==> t.contains(x),
    ensures
        strictly_increasing(s),
{
    assert forall|i: int, j: int| 0 <= i < j < s.len() implies s[i] < s[j] by {
        if s[i] == s[j] {
            let r = s.remove(j);
            assert(s.to_set() =~= r.to_set()) by {
                assert forall|x: usize| s.to_set().contains(x) implies r.to_set().contains(x) by {
                    let k = choose|k: int| 0 <= k < s.len() && s[k] == x;
                    if k < j {
                        assert(r[k] == x);
                    } else if k > j {
                        assert(r[k - 1] == x);
                    } else {
                        assert(r[i] == x);
                    }
                }
                assert forall|x: usize| r.to_set().contains(x) implies s.to_set().contains(x) by {
                    let k = choose|k: int| 0 <= k < r.len() && r[k] == x;
                    if k < j {
                        assert(s[k] == x);
                    } else {
                        assert(s[k + 1] == x);
                    }
                }
            }
            r.lemma_cardinality_of_set();
            t.unique_seq_to_set();
            assert(s.to_set() =~= t.to_set()) by {
                assert forall|x: usize| s.to_set().contains(x) <==> t.to_set().contains(x) by {
                    assert(s.contains(x) <==> t.contains(x));
                }
            }
            assert(false);
        }
    }
}

} // verus!
