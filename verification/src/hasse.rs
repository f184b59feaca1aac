//! The Hasse diagram of a semigroup on a list of numbers: `a` is covered by
//! `b` when `b − a` is a minimal generator.
use vstd::prelude::*;
use vstd::string::StringExecFns;
use crate::generated::seq_has;
use crate::inspect::vec_contains;
use crate::semigroup::Semigroup;
use crate::strata::dec;
use crate::text::push_usize;

verus! {

/// `a` is covered by `b`: `a < b` and `b − a` is an element and a minimal
/// generator.
pub open spec fn covered(s: Semigroup, a: int, b: int) -> bool {
    a < b && s.contains(b - a) && seq_has(s.gen_set@, b - a)
}

/// The edges `(nums[a], nums[b])`, `a < b < e`, with `nums[a]` covered by
/// `nums[b]`, in the order of `b`.
pub open spec fn edges_from(s: Semigroup, nums: Seq<usize>, a: int, e: int) -> Seq<(usize, usize)>
    decreases e - a,
{
    if e <= a + 1 {
        Seq::empty()
    } else {
        let rest = edges_from(s, nums, a, e - 1);
        if covered(s, nums[a] as int, nums[e - 1] as int) {
            rest.push((nums[a], nums[e - 1]))
        } else {
            rest
        }
    }
}

/// The edges whose first number has index below `k`, in the order of the
/// pairs of indices.
pub open spec fn all_edges(s: Semigroup, nums: Seq<usize>, k: int) -> Seq<(usize, usize)>
    decreases k,
{
    if k <= 0 {
        Seq::empty()
    } else {
        all_edges(s, nums, k - 1) + edges_from(s, nums, k - 1, nums.len() as int)
    }
}

/// `x` is an end of some edge.
pub open spec fn is_end(edges: Seq<(usize, usize)>, x: usize) -> bool {
    exists|i: int| 0 <= i < edges.len() && ((#[trigger] edges[i]).0 == x || edges[i].1 == x)
}

/// Whether `a` is covered by `b`.
fn covered_exec(sg: &Semigroup, a: usize, b: usize) -> (r: bool)
    requires
        sg.wf(),
    ensures
        r == covered(*sg, a as int, b as int),
{
    if a >= b {
        false
    } else {
        let delta = b - a;
        sg.element(delta) && vec_contains(&sg.gen_set, delta)
    }
}

/// Appends `x` unless it is there already.
fn push_new(v: &mut Vec<usize>, x: usize)
    ensures
        forall|y: usize| final(v)@.contains(y) <==> old(v)@.contains(y) || y == x,
        (forall|i: int, j: int| 0 <= i < j < old(v)@.len() ==> old(v)@[i] != old(v)@[j]) ==> forall|i: int, j: int|
            0 <= i < j < final(v)@.len() ==> final(v)@[i] != final(v)@[j],
{
    let mut k: usize = 0;
    while k < v.len()
        invariant
            k <= v@.len(),
            v@ == old(v)@,
            forall|i: int| 0 <= i < k ==> v@[i] != x,
        decreases v@.len() - k,
    {
        if v[k] == x {
            proof {
                assert(v@.contains(x));
            }
            return;
        }
        k = k + 1;
    }
    let ghost before = v@;
    v.push(x);
    proof {
        assert forall|y: usize| v@.contains(y) <==> before.contains(y) || y == x by {
            if v@.contains(y) {
                let i = choose|i: int| 0 <= i < v@.len() && v@[i] == y;
                if i < before.len() {
                    assert(before[i] == y);
                }
            }
            if before.contains(y) {
                let i = choose|i: int| 0 <= i < before.len() && before[i] == y;
                assert(v@[i] == y);
            }
            if y == x {
                assert(v@[before.len() as int] == x);
            }
        }
    }
}

/// The covering pairs among `numbers` (the earlier number of each pair
/// first, pairs in the order of their indices) and the numbers that lie on
/// some pair, each once.
pub fn graph_edges(numbers: &[usize], sg: &Semigroup) -> (r: (Vec<usize>, Vec<(usize, usize)>))
    requires
        sg.wf(),
    ensures
        r.1@ == all_edges(*sg, numbers@, numbers@.len() as int),
        forall|x: usize| r.0@.contains(x) <==> is_end(r.1@, x),
        forall|i: int, j: int| 0 <= i < j < r.0@.len() ==> r.0@[i] != r.0@[j],
{
    let n = numbers.len();
    let mut edges: Vec<(usize, usize)> = Vec::new();
    let mut a: usize = 0;
    while a < n
        invariant
            n == numbers@.len(),
            a <= n,
            sg.wf(),
            edges@ == all_edges(*sg, numbers@, a as int),
        decreases n - a,
    {
        let ghost start = edges@;
        let mut b: usize = a + 1;
        proof {
            assert(start + edges_from(*sg, numbers@, a as int, b as int) =~= start);
        }
        while b < n
            invariant
                n == numbers@.len(),
                a < n,
                a + 1 <= b <= n,
                sg.wf(),
                edges@ == start + edges_from(*sg, numbers@, a as int, b as int),
            decreases n - b,
        {
            if covered_exec(sg, numbers[a], numbers[b]) {
                edges.push((numbers[a], numbers[b]));
            }
            proof {
                assert(edges@ =~= start + edges_from(*sg, numbers@, a as int, b + 1));
            }
            b = b + 1;
        }
        proof {
            if a + 1 > n {
                assert(false);
            }
        }
        a = a + 1;
    }
    let mut nodes: Vec<usize> = Vec::new();
    let mut i: usize = 0;
    while i < edges.len()
        invariant
            i <= edges@.len(),
            forall|x: usize| nodes@.contains(x) <==> is_end(edges@.take(i as int), x),
            forall|p: int, q: int| 0 <= p < q < nodes@.len() ==> nodes@[p] != nodes@[q],
        decreases edges@.len() - i,
    {
        let ghost before = nodes@;
        push_new(&mut nodes, edges[i].0);
        push_new(&mut nodes, edges[i].1);
        proof {
            let pre = edges@.take(i as int);
            let post = edges@.take(i + 1);
            assert forall|x: usize| nodes@.contains(x) <==> is_end(post, x) by {
                if is_end(pre, x) {
                    let j = choose|j: int| 0 <= j < pre.len() && ((#[trigger] pre[j]).0 == x || pre[j].1 == x);
                    assert(post[j] == pre[j]);
                }
                if x == edges@[i as int].0 || x == edges@[i as int].1 {
                    assert(post[i as int] == edges@[i as int]);
                }
                if is_end(post, x) {
                    let j = choose|j: int| 0 <= j < post.len() && ((#[trigger] post[j]).0 == x || post[j].1 == x);
                    if j < i {
                        assert(pre[j] == post[j]);
                    }
                }
            }
        }
        i = i + 1;
    }
    proof {
        assert(edges@.take(edges@.len() as int) =~= edges@);
    }
    (nodes, edges)
}

/// The pairs as `(a,b)`, separated by `, `.
pub open spec fn edges_text(edges: Seq<(usize, usize)>) -> Seq<char>
    decreases edges.len(),
{
    if edges.len() == 0 {
        Seq::empty()
    } else {
        let e = edges.last();
        let pair = "("@ + dec(e.0 as nat) + ","@ + dec(e.1 as nat) + ")"@;
        if edges.len() == 1 {
            pair
        } else {
            edges_text(edges.drop_last()) + ", "@ + pair
        }
    }
}

/// The covering pairs among `0..=upto` as text.
pub fn graph_edges_text(sg: &Semigroup, upto: usize) -> (text: String)
    requires
        sg.wf(),
        upto < usize::MAX,
    ensures
        text@ == edges_text(all_edges(*sg, Seq::new((upto + 1) as nat, |i: int| i as usize), upto + 1)),
{
    let mut numbers: Vec<usize> = Vec::new();
    let mut k: usize = 0;
    while k <= upto
        invariant
            k <= upto + 1,
            upto < usize::MAX,
            numbers@ == Seq::new(k as nat, |i: int| i as usize),
        decreases upto + 1 - k,
    {
        numbers.push(k);
        proof {
            assert(numbers@ =~= Seq::new((k + 1) as nat, |i: int| i as usize));
        }
        k = k + 1;
    }
    let (_, edges) = graph_edges(numbers.as_slice(), sg);
    let mut out = String::new();
    let mut i: usize = 0;
    proof {
        assert(edges@.take(0) =~= Seq::<(usize, usize)>::empty());
    }
    while i < edges.len()
        invariant
            i <= edges@.len(),
            out@ == edges_text(edges@.take(i as int)),
        decreases edges@.len() - i,
    {
        if i > 0 {
            out.append(", ");
        }
        out.append("(");
        push_usize(&mut out, edges[i].0);
        out.append(",");
        push_usize(&mut out, edges[i].1);
        out.append(")");
        proof {
            let t = edges@.take(i + 1);
            assert(t.drop_last() =~= edges@.take(i as int));
            assert(t.last() == edges@[i as int]);
        }
        i = i + 1;
    }
    proof {
        assert(edges@.take(edges@.len() as int) =~= edges@);
    }
    out
}

} // verus!
