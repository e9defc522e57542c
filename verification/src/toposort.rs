//! Incrementally maintained topological order of a directed graph.
//!
//! Nodes are identified by `u64` values. After an initial sort, arcs can
//! still be added: an arc from A to B with B placed before A is accepted by
//! moving the nodes between them which reach A (A among them) in front of
//! the others, keeping each group in its old order, and it is refused when
//! B already reaches A, as the arc would close a cycle.

use vstd::prelude::*;
use std::collections::HashMap;

verus! {

broadcast use vstd::std_specs::hash::group_hash_axioms;

/// Flags are fresh numbers below this bound: beyond it the bitwise
/// complement of a node's flag could equal the flag being drawn, and the
/// sort's test on it would go wrong.
pub const FLAG_LIMIT: u64 = 0x8000_0000_0000_0000;

struct TopoNode {
    incoming: Vec<usize>,
    incoming_build: Vec<usize>,
    outgoing: Vec<usize>,
    value: u64,
    flag: u64,
}

/// A directed graph over `u64` values with an optional topological order.
pub struct TopoSort {
    nodes: Vec<TopoNode>,
    lookup: HashMap<u64, usize>,
    sort: Option<(Vec<usize>, Vec<usize>)>,
    next_flag: u64,
}

/// A path: consecutive nodes joined by arcs of `g`.
pub open spec fn is_path(g: spec_fn(int, int) -> bool, p: Seq<usize>) -> bool {
    &&& p.len() >= 1
    &&& forall|i: int, j: int| 0 <= i && j == i + 1 && j < p.len() ==> #[trigger] g(p[i] as int, p[j] as int)
}

/// Whether `v` is reachable from `u` (every node reaches itself).
pub open spec fn reaches(g: spec_fn(int, int) -> bool, u: usize, v: usize) -> bool {
    exists|p: Seq<usize>| is_path(g, p) && p[0] == u && p.last() == v
}

/// Whether `rank` ranks the nodes `0..n` so that every arc of `g` goes up.
pub open spec fn is_ranking(g: spec_fn(int, int) -> bool, n: nat, rank: Seq<int>) -> bool {
    &&& rank.len() == n
    &&& forall|a: int, b: int| 0 <= a < n && 0 <= b < n && #[trigger] g(a, b) ==> rank[a] < rank[b]
}

/// Whether the graph over `0..n` has no cycle, i.e. admits a ranking.
pub open spec fn acyclic(g: spec_fn(int, int) -> bool, n: nat) -> bool {
    exists|rank: Seq<int>| is_ranking(g, n, rank)
}

/// Whether `p2n` (position to node) and `n2p` (node to position) are
/// inverse permutations of `0..n`.
pub open spec fn is_permutation_pair(p2n: Seq<usize>, n2p: Seq<usize>, n: nat) -> bool {
    &&& p2n.len() == n
    &&& n2p.len() == n
    &&& forall|i: int| 0 <= i < n ==> #[trigger] p2n[i] < n && n2p[p2n[i] as int] == i
    &&& forall|j: int| 0 <= j < n ==> #[trigger] n2p[j] < n && p2n[n2p[j] as int] == j
}

/// Whether every predecessor of node `d` is among `sorted`, for the graph
/// over `0..n` whose successor lists are `outs`.
pub open spec fn preds_done(outs: Seq<Seq<usize>>, n: nat, sorted: Seq<usize>, d: usize) -> bool {
    forall|u: int| 0 <= u < n && #[trigger] outs[u].contains(d) ==> sorted.contains(u as usize)
}

/// The nodes released once `sorted` is done: those whose predecessors are
/// all done.
pub open spec fn released_by(outs: Seq<Seq<usize>>, n: nat, sorted: Seq<usize>) -> spec_fn(usize) -> bool {
    |d: usize| preds_done(outs, n, sorted, d)
}

/// The nodes of `i..n` without predecessors, from the highest index down.
pub open spec fn kahn_roots(outs: Seq<Seq<usize>>, n: nat, i: nat) -> Seq<usize>
    decreases n - i,
{
    if i >= n {
        Seq::empty()
    } else {
        let rest = kahn_roots(outs, n, i + 1);
        if preds_done(outs, n, Seq::empty(), i as usize) {
            rest.push(i as usize)
        } else {
            rest
        }
    }
}

/// One step of the sort: the node to place next is the last released one,
/// or failing that the lowest remaining root; it joins the sorted nodes,
/// and its successors that have no other pending predecessor are released
/// in the order of its arcs. The state is (sorted, released, roots).
pub open spec fn kahn_step(
    outs: Seq<Seq<usize>>,
    n: nat,
    s: (Seq<usize>, Seq<usize>, Seq<usize>),
) -> (Seq<usize>, Seq<usize>, Seq<usize>) {
    let (sorted, ongoing, roots) = s;
    if ongoing.len() > 0 {
        let src = ongoing.last();
        let next = sorted.push(src);
        (next, ongoing.drop_last() + outs[src as int].filter(released_by(outs, n, next)), roots)
    } else if roots.len() > 0 {
        let src = roots.last();
        let next = sorted.push(src);
        (next, outs[src as int].filter(released_by(outs, n, next)), roots.drop_last())
    } else {
        s
    }
}

/// The state of the sort after `k` steps.
pub open spec fn kahn_run(outs: Seq<Seq<usize>>, n: nat, k: nat) -> (Seq<usize>, Seq<usize>, Seq<usize>)
    decreases k,
{
    if k == 0 {
        (Seq::empty(), Seq::empty(), kahn_roots(outs, n, 0))
    } else {
        kahn_step(outs, n, kahn_run(outs, n, (k - 1) as nat))
    }
}

/// The order in which the sort places the nodes of an acyclic graph.
pub open spec fn kahn_order(outs: Seq<Seq<usize>>, n: nat) -> Seq<usize> {
    kahn_run(outs, n, n).0
}


/// A sequence of distinct naturals below `n` has at most `n` elements.
proof fn lemma_distinct_bound(s: Seq<usize>, n: nat)
    requires
        s.no_duplicates(),
        forall|i: int| 0 <= i < s.len() ==> #[trigger] s[i] < n,
        n <= usize::MAX,
    ensures
        s.len() <= n,
    decreases n,
{
    if n == 0 {
        if s.len() > 0 {
            assert(s[0] < 0);
        }
    } else {
        let top = (n - 1) as usize;
        if s.contains(top) {
            let k = choose|k: int| 0 <= k < s.len() && s[k] == top;
            let t = s.remove(k);
            assert forall|i: int| 0 <= i < t.len() implies #[trigger] t[i] < n - 1 by {
                if i < k {
                    assert(t[i] == s[i]);
                } else {
                    assert(t[i] == s[i + 1]);
                }
            }
            assert(t.no_duplicates()) by {
                assert forall|i: int, j: int| 0 <= i < t.len() && 0 <= j < t.len() && i != j implies t[i] != t[j] by {
                    let si = if i < k { i } else { i + 1 };
                    let sj = if j < k { j } else { j + 1 };
                    assert(t[i] == s[si] && t[j] == s[sj]);
                }
            }
            lemma_distinct_bound(t, (n - 1) as nat);
        } else {
            assert forall|i: int| 0 <= i < s.len() implies #[trigger] s[i] < n - 1 by {
                if s[i] == top {
                    assert(s.contains(top));
                }
            }
            lemma_distinct_bound(s, (n - 1) as nat);
        }
    }
}

/// A sequence of fewer than `n` distinct naturals below `n` misses one.
proof fn lemma_distinct_missing(s: Seq<usize>, n: nat) -> (v: usize)
    requires
        s.no_duplicates(),
        forall|i: int| 0 <= i < s.len() ==> #[trigger] s[i] < n,
        s.len() < n,
        n <= usize::MAX,
    ensures
        v < n,
        !s.contains(v),
    decreases n,
{
    let top = (n - 1) as usize;
    if !s.contains(top) {
        top
    } else {
        let k = choose|k: int| 0 <= k < s.len() && s[k] == top;
        let t = s.remove(k);
        assert forall|i: int| 0 <= i < t.len() implies #[trigger] t[i] < n - 1 by {
            if i < k {
                assert(t[i] == s[i]);
            } else {
                assert(t[i] == s[i + 1]);
            }
        }
        assert(t.no_duplicates()) by {
            assert forall|i: int, j: int| 0 <= i < t.len() && 0 <= j < t.len() && i != j implies t[i] != t[j] by {
                let si = if i < k { i } else { i + 1 };
                let sj = if j < k { j } else { j + 1 };
                assert(t[i] == s[si] && t[j] == s[sj]);
            }
        }
        let v = lemma_distinct_missing(t, (n - 1) as nat);
        if s.contains(v) {
            let j = choose|j: int| 0 <= j < s.len() && s[j] == v;
            if j < k {
                assert(t[j] == v);
            } else if j > k {
                assert(t[j - 1] == v);
            }
        }
        v
    }
}

/// Removing the element at `i` of a duplicate-free sequence by swapping in
/// the last element removes exactly that element.
proof fn lemma_swap_remove(s: Seq<usize>, i: int)
    requires
        s.no_duplicates(),
        0 <= i < s.len(),
    ensures
        s.update(i, s.last()).drop_last().no_duplicates(),
        forall|y: usize| #[trigger] s.update(i, s.last()).drop_last().contains(y)
            <==> (s.contains(y) && y != s[i]),
        s.update(i, s.last()).drop_last().len() == s.len() - 1,
{
    let t = s.update(i, s.last()).drop_last();
    let l = s.len() - 1;
    assert forall|y: usize| #[trigger] t.contains(y) <==> (s.contains(y) && y != s[i]) by {
        if t.contains(y) {
            let j = choose|j: int| 0 <= j < t.len() && t[j] == y;
            if j == i {
                assert(y == s[l]);
                assert(s[l] != s[i]);
            } else {
                assert(y == s[j]);
            }
        }
        if s.contains(y) && y != s[i] {
            let j = choose|j: int| 0 <= j < s.len() && s[j] == y;
            if j == l {
                assert(t[i] == y);
            } else {
                assert(t[j] == y);
            }
        }
    }
}

/// A nonempty set of nodes in which every node has a predecessor in the set
/// rules out a ranking.
proof fn lemma_stuck_not_acyclic(g: spec_fn(int, int) -> bool, n: nat, done: Seq<bool>, v0: int)
    requires
        done.len() == n,
        0 <= v0 < n,
        !done[v0],
        forall|v: int| 0 <= v < n && !done[v] ==> exists|u: int| 0 <= u < n && !done[u] && #[trigger] g(u, v),
    ensures
        !acyclic(g, n),
{
    if acyclic(g, n) {
        let rank = choose|rank: Seq<int>| is_ranking(g, n, rank);
        let m = min_undone(done, rank, n, 0, v0);
        let u = choose|u: int| 0 <= u < n && !done[u] && #[trigger] g(u, m);
        assert(rank[u] < rank[m]);
    }
}

/// An undone node of least rank among those from `k` on, or `best`.
proof fn min_undone(done: Seq<bool>, rank: Seq<int>, n: nat, k: int, best: int) -> (m: int)
    requires
        done.len() == n,
        rank.len() == n,
        0 <= k <= n,
        0 <= best < n,
        !done[best],
        forall|w: int| 0 <= w < k && !done[w] ==> rank[best] <= rank[w],
    ensures
        0 <= m < n,
        !done[m],
        forall|w: int| 0 <= w < n && !done[w] ==> rank[m] <= rank[w],
    decreases n - k,
{
    if k == n {
        best
    } else {
        let nb = if !done[k] && rank[k] < rank[best] { k } else { best };
        min_undone(done, rank, n, k + 1, nb)
    }
}

/// The first position of `x` in `v`.
fn find_index(v: &Vec<usize>, x: usize) -> (p: usize)
    requires
        v@.contains(x),
    ensures
        p < v@.len(),
        v@[p as int] == x,
        forall|j: int| 0 <= j < p ==> v@[j] != x,
{
    let mut p: usize = 0;
    while p < v.len()
        invariant
            p <= v@.len(),
            v@.contains(x),
            forall|j: int| 0 <= j < p ==> v@[j] != x,
        decreases v@.len() - p,
    {
        if v[p] == x {
            return p;
        }
        p += 1;
    }
    proof {
        let j = choose|j: int| 0 <= j < v@.len() && v@[j] == x;
        assert(v@[j] != x);
    }
    0
}

/// Whether `x` occurs in `v`.
fn has_index(v: &Vec<usize>, x: usize) -> (r: bool)
    ensures
        r == v@.contains(x),
{
    let mut p: usize = 0;
    while p < v.len()
        invariant
            p <= v@.len(),
            forall|j: int| 0 <= j < p ==> v@[j] != x,
        decreases v@.len() - p,
    {
        if v[p] == x {
            assert(v@[p as int] == x);
            return true;
        }
        p += 1;
    }
    false
}

/// A copy of a vector of indices.
fn copy_indices(v: &Vec<usize>) -> (r: Vec<usize>)
    ensures
        r@ == v@,
{
    let mut r: Vec<usize> = Vec::new();
    let mut i: usize = 0;
    while i < v.len()
        invariant
            i <= v@.len(),
            r@ == v@.take(i as int),
        decreases v@.len() - i,
    {
        r.push(v[i]);
        i += 1;
        proof {
            assert(r@ =~= v@.take(i as int));
        }
    }
    proof {
        assert(v@.take(i as int) =~= v@);
    }
    r
}

/// Every node reaches itself.
pub proof fn lemma_reaches_self(g: spec_fn(int, int) -> bool, a: usize)
    ensures
        reaches(g, a, a),
{
    let p = seq![a];
    assert(is_path(g, p));
    assert(p[0] == a && p.last() == a);
}

/// A node reaches what its successors reach.
pub proof fn lemma_reaches_step(g: spec_fn(int, int) -> bool, x: usize, y: usize, a: usize)
    requires
        g(x as int, y as int),
        reaches(g, y, a),
    ensures
        reaches(g, x, a),
{
    let p = choose|p: Seq<usize>| is_path(g, p) && p[0] == y && p.last() == a;
    let q = seq![x] + p;
    assert forall|i: int, j: int| 0 <= i && j == i + 1 && j < q.len() implies #[trigger] g(q[i] as int, q[j] as int) by {
        if i > 0 {
            assert(q[i] == p[i - 1] && q[j] == p[i]);
            assert(g(p[i - 1] as int, p[i] as int));
        } else {
            assert(q[0] == x && q[1] == y);
        }
    }
    assert(is_path(g, q));
    assert(q[0] == x && q.last() == a);
}

/// A node that reaches another one has a successor that reaches it.
proof fn lemma_reaches_first(g: spec_fn(int, int) -> bool, x: usize, a: usize) -> (y: usize)
    requires
        reaches(g, x, a),
        x != a,
    ensures
        g(x as int, y as int),
        reaches(g, y, a),
{
    let p = choose|p: Seq<usize>| is_path(g, p) && p[0] == x && p.last() == a;
    assert(p.len() >= 2);
    assert(g(p[0] as int, p[1] as int));
    let q = p.skip(1);
    assert forall|i: int, j: int| 0 <= i && j == i + 1 && j < q.len() implies #[trigger] g(q[i] as int, q[j] as int) by {
        assert(q[i] == p[i + 1] && q[j] == p[i + 2]);
        assert(g(p[i + 1] as int, p[i + 2] as int));
    }
    assert(is_path(g, q));
    assert(q[0] == p[1] && q.last() == a);
    p[1]
}

/// Along a path of a graph whose arcs go up in `rank`, the rank goes up.
proof fn lemma_path_rank(g: spec_fn(int, int) -> bool, rank: Seq<usize>, p: Seq<usize>)
    requires
        is_path(g, p),
        p.len() >= 2,
        forall|u: int, v: int| #[trigger] g(u, v) ==> rank[u] < rank[v],
    ensures
        rank[p[0] as int] < rank[p.last() as int],
    decreases p.len(),
{
    assert(g(p[p.len() - 2] as int, p[p.len() - 1] as int));
    if p.len() > 2 {
        let q = p.drop_last();
        assert forall|i: int, j: int| 0 <= i && j == i + 1 && j < q.len() implies #[trigger] g(q[i] as int, q[j] as int) by {
            assert(q[i] == p[i] && q[j] == p[j]);
            assert(g(p[i] as int, p[j] as int));
        }
        lemma_path_rank(g, rank, q);
    }
}

/// What reaches a node other than itself stands before it in any ranking.
proof fn lemma_reaches_rank(g: spec_fn(int, int) -> bool, rank: Seq<usize>, x: usize, a: usize)
    requires
        reaches(g, x, a),
        x != a,
        forall|u: int, v: int| #[trigger] g(u, v) ==> rank[u] < rank[v],
    ensures
        rank[x as int] < rank[a as int],
{
    let p = choose|p: Seq<usize>| is_path(g, p) && p[0] == x && p.last() == a;
    lemma_path_rank(g, rank, p);
}

/// The predicate that holds where `p` does not.
pub open spec fn negate(p: spec_fn(usize) -> bool) -> spec_fn(usize) -> bool {
    |x: usize| !p(x)
}

/// Filtering a duplicate-free sequence keeps what satisfies the predicate,
/// once each and in order, and the two sides of a predicate share out the
/// elements.
proof fn lemma_filter(w: Seq<usize>, p: spec_fn(usize) -> bool)
    requires
        w.no_duplicates(),
    ensures
        w.filter(p).no_duplicates(),
        w.filter(p).len() + w.filter(negate(p)).len() == w.len(),
        forall|x: usize| #[trigger] w.filter(p).contains(x) <==> (w.contains(x) && p(x)),
    decreases w.len(),
{
    reveal(Seq::filter);
    if w.len() > 0 {
        let w2 = w.drop_last();
        let l = w.last();
        assert(w2.no_duplicates()) by {
            assert forall|i: int, j: int| 0 <= i < w2.len() && 0 <= j < w2.len() && i != j
                implies w2[i] != w2[j] by {
                assert(w2[i] == w[i] && w2[j] == w[j]);
            }
        }
        assert(!w2.contains(l)) by {
            if w2.contains(l) {
                let k = choose|k: int| 0 <= k < w2.len() && w2[k] == l;
                assert(w[k] == w[w.len() - 1]);
            }
        }
        lemma_filter(w2, p);
        let f2 = w2.filter(p);
        let f = w.filter(p);
        assert(f == if p(l) { f2.push(l) } else { f2 });
        assert(w.filter(negate(p)) == if negate(p)(l) { w2.filter(negate(p)).push(l) } else { w2.filter(negate(p)) });
        assert forall|x: usize| #[trigger] f.contains(x) <==> (w.contains(x) && p(x)) by {
            if w.contains(x) && x != l {
                let k = choose|k: int| 0 <= k < w.len() && w[k] == x;
                assert(w2[k] == x);
            }
            if w2.contains(x) {
                let k = choose|k: int| 0 <= k < w2.len() && w2[k] == x;
                assert(w[k] == x);
            }
            if p(l) {
                if f2.contains(x) {
                    let k = choose|k: int| 0 <= k < f2.len() && f2[k] == x;
                    assert(f[k] == x);
                }
                if f.contains(x) && x != l {
                    let k = choose|k: int| 0 <= k < f.len() && f[k] == x;
                    assert(k < f2.len());
                    assert(f2[k] == x);
                }
                assert(f[f2.len() as int] == l);
            }
        }
        if p(l) {
            assert(f.no_duplicates()) by {
                assert forall|i: int, j: int| 0 <= i < f.len() && 0 <= j < f.len() && i != j
                    implies f[i] != f[j] by {
                    if i == f2.len() {
                        assert(f2.contains(f[j]));
                    } else if j == f2.len() {
                        assert(f2.contains(f[i]));
                    } else {
                        assert(f[i] == f2[i] && f[j] == f2[j]);
                    }
                }
            }
        }
    }
}

/// Filtering keeps the order: two elements of the filtered sequence stand
/// in the same order in the unfiltered one.
proof fn lemma_filter_order(w: Seq<usize>, p: spec_fn(usize) -> bool, i: int, j: int) -> (ab: (int, int))
    requires
        0 <= i < j < w.filter(p).len(),
    ensures
        0 <= ab.0 < ab.1 < w.len(),
        w[ab.0] == w.filter(p)[i],
        w[ab.1] == w.filter(p)[j],
    decreases w.len(),
{
    reveal(Seq::filter);
    let w2 = w.drop_last();
    let l = w.last();
    let f2 = w2.filter(p);
    let f = w.filter(p);
    assert(w.len() > 0);
    assert(f == if p(l) { f2.push(l) } else { f2 });
    if p(l) && j == f2.len() {
        assert(f2.contains(f2[i]));
        w2.lemma_filter_contains_rev(p, f2[i]);
        let a = choose|a: int| 0 <= a < w2.len() && w2[a] == f2[i];
        assert(w[a] == f[i]);
        (a, w.len() - 1)
    } else {
        let (a, b) = lemma_filter_order(w2, p, i, j);
        assert(w[a] == w2[a] && w[b] == w2[b]);
        (a, b)
    }
}

/// The predicate of reaching `a` in `g`.
pub open spec fn reaches_to(g: spec_fn(int, int) -> bool, a: usize) -> spec_fn(usize) -> bool {
    |x: usize| reaches(g, x, a)
}

/// Moving, within the window of positions `pb..=pa`, the nodes that satisfy
/// `pred` in front of the others (each group in its old order) keeps a
/// topological order when `pred` holds of every predecessor of a node that
/// satisfies it; and a node that satisfies it then stands before any node of
/// the window that does not.
proof fn lemma_rearranged(
    g: spec_fn(int, int) -> bool,
    n: nat,
    op: Seq<usize>,
    on: Seq<usize>,
    pb: int,
    pa: int,
    pred: spec_fn(usize) -> bool,
    nn: Seq<usize>,
    np: Seq<usize>,
    nq: Seq<usize>,
)
    requires
        is_permutation_pair(op, on, n),
        forall|u: int, v: int| #[trigger] g(u, v) ==> 0 <= u < n && 0 <= v < n && on[u] < on[v],
        0 <= pb < pa < n,
        forall|u: int, v: int| #[trigger] g(u, v) && pred(v as usize) ==> pred(u as usize),
        nn == op.subrange(pb, pa + 1).filter(pred) + op.subrange(pb, pa + 1).filter(negate(pred)),
        np == op.subrange(0, pb) + nn + op.subrange(pa + 1, n as int),
        nq.len() == n,
        forall|k: int| 0 <= k < nn.len() ==> #[trigger] nq[nn[k] as int] == pb + k,
        forall|x: int| 0 <= x < n && !nn.contains(x as usize) ==> #[trigger] nq[x] == on[x],
    ensures
        is_permutation_pair(np, nq, n),
        forall|u: int, v: int| #[trigger] g(u, v) ==> nq[u] < nq[v],
        forall|x: usize, y: usize| x < n && y < n && pb <= on[x as int] <= pa && pb <= on[y as int] <= pa
            && pred(x) && !pred(y) ==> #[trigger] nq[x as int] < #[trigger] nq[y as int],
{
    let w = op.subrange(pb, pa + 1);
    let f = w.filter(pred);
    let u = w.filter(negate(pred));
    assert(w.no_duplicates()) by {
        assert forall|i: int, j: int| 0 <= i < w.len() && 0 <= j < w.len() && i != j implies w[i] != w[j] by {
            assert(on[op[pb + i] as int] == pb + i);
            assert(on[op[pb + j] as int] == pb + j);
        }
    }
    lemma_filter(w, pred);
    lemma_filter(w, negate(pred));
    assert(nn.len() == w.len());
    // membership of the window
    assert forall|x: usize| x < n implies (#[trigger] w.contains(x) <==> pb <= on[x as int] <= pa) by {
        if w.contains(x) {
            let k = choose|k: int| 0 <= k < w.len() && w[k] == x;
            assert(op[pb + k] == x);
        }
        if pb <= on[x as int] <= pa {
            assert(w[on[x as int] - pb] == x);
        }
    }
    assert forall|x: usize| #[trigger] nn.contains(x) <==> w.contains(x) by {
        if nn.contains(x) {
            let k = choose|k: int| 0 <= k < nn.len() && nn[k] == x;
            if k < f.len() {
                assert(f[k] == x);
                assert(f.contains(x));
            } else {
                assert(u[k - f.len()] == x);
                assert(u.contains(x));
            }
        }
        if w.contains(x) {
            if pred(x) {
                assert(f.contains(x));
                let k = choose|k: int| 0 <= k < f.len() && f[k] == x;
                assert(nn[k] == x);
            } else {
                assert(negate(pred)(x));
                assert(u.contains(x));
                let k = choose|k: int| 0 <= k < u.len() && u[k] == x;
                assert(nn[f.len() + k] == x);
            }
        }
    }
    assert forall|k: int| 0 <= k < w.len() implies #[trigger] w[k] < n by {
        assert(w[k] == op[pb + k]);
    }
    assert forall|k: int| 0 <= k < nn.len() implies #[trigger] nn[k] < n && w.contains(nn[k]) by {
        assert(nn.contains(nn[k]));
        let j = choose|j: int| 0 <= j < w.len() && w[j] == nn[k];
    }
    // positions to nodes
    assert forall|i: int| 0 <= i < n implies #[trigger] np[i] < n && nq[np[i] as int] == i by {
        if i < pb {
            assert(np[i] == op[i]);
            assert(on[op[i] as int] == i);
            assert(!w.contains(op[i]));
        } else if i <= pa {
            assert(np[i] == nn[i - pb]);
        } else {
            assert(np[i] == op[i]);
            assert(on[op[i] as int] == i);
            assert(!w.contains(op[i]));
        }
    }
    assert forall|j: int| 0 <= j < n implies #[trigger] nq[j] < n && np[nq[j] as int] == j by {
        if nn.contains(j as usize) {
            let k = choose|k: int| 0 <= k < nn.len() && nn[k] == j as usize;
            assert(np[pb + k] == nn[k]);
        } else {
            assert(!w.contains(j as usize));
            let q = on[j];
            assert(op[q as int] == j);
            if q < pb {
                assert(np[q as int] == op[q as int]);
            } else {
                assert(np[q as int] == op[q as int]);
            }
        }
    }
    assert(is_permutation_pair(np, nq, n));
    // a node of the window satisfying pred comes before one that does not
    assert forall|x: usize, y: usize| x < n && y < n && pb <= on[x as int] <= pa && pb <= on[y as int] <= pa
        && pred(x) && !pred(y) implies #[trigger] nq[x as int] < #[trigger] nq[y as int] by {
        assert(w.contains(x) && w.contains(y));
        assert(f.contains(x));
        assert(negate(pred)(y));
        assert(u.contains(y));
        let kx = choose|k: int| 0 <= k < f.len() && f[k] == x;
        let ky = choose|k: int| 0 <= k < u.len() && u[k] == y;
        assert(nn[kx] == x);
        assert(nn[f.len() + ky] == y);
    }
    // arcs keep going up
    assert forall|a: int, b: int| #[trigger] g(a, b) implies nq[a] < nq[b] by {
        let xa = a as usize;
        let xb = b as usize;
        let ina = pb <= on[a] <= pa;
        let inb = pb <= on[b] <= pa;
        if !ina {
            assert(!w.contains(xa));
            assert(!nn.contains(xa));
        }
        if !inb {
            assert(!w.contains(xb));
            assert(!nn.contains(xb));
        }
        if ina && inb {
            assert(w.contains(xa) && w.contains(xb));
            if pred(xa) && pred(xb) {
                assert(f.contains(xa) && f.contains(xb));
                let ka = choose|k: int| 0 <= k < f.len() && f[k] == xa;
                let kb = choose|k: int| 0 <= k < f.len() && f[k] == xb;
                assert(nn[ka] == xa && nn[kb] == xb);
                if kb < ka {
                    let (i, j) = lemma_filter_order(w, pred, kb, ka);
                    assert(on[op[pb + i] as int] == pb + i);
                    assert(on[op[pb + j] as int] == pb + j);
                }
                assert(ka != kb);
            } else if !pred(xa) && !pred(xb) {
                assert(negate(pred)(xa) && negate(pred)(xb));
                assert(u.contains(xa) && u.contains(xb));
                let ka = choose|k: int| 0 <= k < u.len() && u[k] == xa;
                let kb = choose|k: int| 0 <= k < u.len() && u[k] == xb;
                assert(nn[f.len() + ka] == xa && nn[f.len() + kb] == xb);
                if kb < ka {
                    let (i, j) = lemma_filter_order(w, negate(pred), kb, ka);
                    assert(on[op[pb + i] as int] == pb + i);
                    assert(on[op[pb + j] as int] == pb + j);
                }
                assert(ka != kb);
            } else if pred(xb) {
                assert(pred(xa));
            }
        } else if ina {
            assert(w.contains(xa));
            assert(nn.contains(xa));
            let k = choose|k: int| 0 <= k < nn.len() && nn[k] == xa;
            assert(nq[a] == pb + k);
        } else if inb {
            assert(w.contains(xb));
            assert(nn.contains(xb));
            let k = choose|k: int| 0 <= k < nn.len() && nn[k] == xb;
            assert(nq[b] == pb + k);
        }
    }
}

impl TopoSort {
    /// The number of nodes.
    pub closed spec fn len(&self) -> nat {
        self.nodes@.len()
    }

    /// The value of each node, in order of creation.
    pub closed spec fn values(&self) -> Seq<u64> {
        self.nodes@.map_values(|n: TopoNode| n.value)
    }

    /// Whether there is an arc from node `a` to node `b` (by index).
    pub closed spec fn edge(&self, a: int, b: int) -> bool {
        0 <= a < self.nodes@.len() && 0 <= b < self.nodes@.len()
            && self.nodes@[a].outgoing@.contains(b as usize)
    }

    /// The successors of each node, in the order their arcs were added.
    pub closed spec fn successors(&self) -> Seq<Seq<usize>> {
        self.nodes@.map_values(|n: TopoNode| n.outgoing@)
    }

    /// The arcs as a relation on node indices.
    pub open spec fn graph(&self) -> spec_fn(int, int) -> bool {
        |a: int, b: int| self.edge(a, b)
    }

    /// Whether a topological order is held.
    pub closed spec fn has_order(&self) -> bool {
        self.sort is Some
    }

    /// Whether a sort has been attempted or an order maintained.
    pub closed spec fn sort_attempted(&self) -> bool {
        self.next_flag > 1
    }

    /// The held order: node indices by position.
    pub closed spec fn positions(&self) -> Seq<usize> {
        self.sort.unwrap().0@
    }

    /// The position of each node in the held order.
    pub closed spec fn position_of(&self) -> Seq<usize> {
        self.sort.unwrap().1@
    }

    /// The held order as values.
    pub open spec fn spec_order(&self) -> Option<Seq<u64>> {
        if self.has_order() {
            Some(self.positions().map_values(|i: usize| self.values()[i as int]))
        } else {
            None
        }
    }

    /// The index of the node with value `v`, if any.
    pub closed spec fn index_of(&self, v: u64) -> Option<usize> {
        if self.lookup@.contains_key(v) { Some(self.lookup@[v]) } else { None }
    }

    /// No arc occurs twice (required of the graph when it is sorted).
    pub closed spec fn simple(&self) -> bool {
        forall|a: int| 0 <= a < self.nodes@.len() ==> {
            &&& (#[trigger] self.nodes@[a]).outgoing@.no_duplicates()
            &&& self.nodes@[a].incoming@.no_duplicates()
        }
    }

    /// Whether another flag can be drawn: the counter is below the bound.
    pub open spec fn flags_left(&self) -> bool {
        self.flag_counter() < FLAG_LIMIT
    }

    /// The internal invariant.
    pub closed spec fn wf(&self) -> bool {
        let n = self.nodes@.len();
        &&& forall|v: u64| #[trigger] self.lookup@.contains_key(v) ==> self.lookup@[v] < n
            && self.nodes@[self.lookup@[v] as int].value == v
        &&& forall|i: int| 0 <= i < n ==> #[trigger] self.lookup@.contains_key(self.nodes@[i].value)
            && self.lookup@[self.nodes@[i].value] == i
        &&& forall|a: int, j: int| 0 <= a < n && 0 <= j < self.nodes@[a].outgoing@.len()
            ==> #[trigger] self.nodes@[a].outgoing@[j] < n
        &&& forall|a: int, j: int| 0 <= a < n && 0 <= j < self.nodes@[a].incoming@.len()
            ==> #[trigger] self.nodes@[a].incoming@[j] < n
        &&& forall|a: int, b: int|
            #![trigger self.nodes@[a].outgoing@.contains(b as usize)]
            #![trigger self.nodes@[b].incoming@.contains(a as usize)]
            0 <= a < n && 0 <= b < n ==>
            (self.nodes@[a].outgoing@.contains(b as usize) <==> self.nodes@[b].incoming@.contains(a as usize))
        &&& 1 <= self.next_flag <= FLAG_LIMIT
        &&& forall|i: int| 0 <= i < n ==> #[trigger] self.nodes@[i].flag < self.next_flag
        &&& self.sort matches Some((p2n, n2p)) ==> {
            &&& self.next_flag > 1
            &&& is_permutation_pair(p2n@, n2p@, n)
            &&& forall|a: int, b: int| #[trigger] self.edge(a, b) ==> n2p@[a] < n2p@[b]
        }
    }

    /// An empty graph with no order.
    pub fn new() -> (r: TopoSort)
        ensures
            r.wf(),
            r.len() == 0,
            r.values() == Seq::<u64>::empty(),
            forall|v: u64| #[trigger] r.index_of(v) is None,
            forall|a: int, b: int| !#[trigger] r.edge(a, b),
            !r.has_order(),
            !r.sort_attempted(),
            r.flag_counter() == 1,
            r.flags_left(),
            r.simple(),
            r.successors() == Seq::<Seq<usize>>::empty(),
    {
        let r = TopoSort { nodes: Vec::new(), lookup: HashMap::new(), sort: None, next_flag: 1 };
        proof {
            assert(r.successors() =~= Seq::<Seq<usize>>::empty());
        }
        r
    }

    /// Adds a node for `value` unless one exists. When an order is held,
    /// the new node is placed just after `after` if that value is known,
    /// otherwise at the end.
    #[verifier::spinoff_prover]
    #[verifier::rlimit(40)]
    pub fn node(&mut self, value: u64, after: Option<&u64>)
        requires
            old(self).wf(),
            old(self).sort_attempted() ==> old(self).has_order(),
            old(self).len() + 1 < usize::MAX,
            old(self).index_of(value) is None && old(self).has_order() && after is Some
                ==> *after.unwrap() != value,
        ensures
            final(self).wf(),
            final(self).sort_attempted() == old(self).sort_attempted(),
            final(self).has_order() == old(self).has_order(),
            final(self).flags_left() == old(self).flags_left(),
            final(self).flag_counter() == old(self).flag_counter(),
            final(self).simple() == old(self).simple(),
            old(self).index_of(value) is Some ==> *final(self) == *old(self),
            old(self).index_of(value) is None ==> {
                &&& final(self).len() == old(self).len() + 1
                &&& final(self).values() == old(self).values().push(value)
                &&& final(self).index_of(value) == Some(old(self).len() as usize)
                &&& forall|v: u64| v != value ==> #[trigger] final(self).index_of(v) == old(self).index_of(v)
                &&& forall|a: int, b: int| #[trigger] final(self).edge(a, b) == old(self).edge(a, b)
                &&& final(self).successors() == old(self).successors().push(Seq::empty())
                &&& old(self).has_order() ==> final(self).positions() == old(self).positions().insert(
                    match after {
                        Some(w) => match old(self).index_of(*w) {
                            Some(i) => old(self).position_of()[i as int] + 1,
                            None => old(self).len() as int,
                        },
                        None => old(self).len() as int,
                    },
                    old(self).len() as usize,
                )
            },
    {
        if self.lookup.contains_key(&value) {
            return;
        }
        let ghost old_self = *old(self);
        let name = self.nodes.len();
        self.lookup.insert(value, name);
        self.nodes.push(TopoNode {
            incoming: Vec::new(),
            incoming_build: Vec::new(),
            outgoing: Vec::new(),
            value,
            flag: 0,
        });
        proof {
            assert(self.values() =~= old_self.values().push(value));
            assert forall|a: int| 0 <= a < name implies #[trigger] self.nodes@[a] == old_self.nodes@[a] by {}
            assert forall|v: u64| #[trigger] self.lookup@.contains_key(v) implies self.lookup@[v] < self.nodes@.len()
                && self.nodes@[self.lookup@[v] as int].value == v by {
                if v != value {
                    assert(old_self.lookup@.contains_key(v));
                }
            }
            assert forall|i: int| 0 <= i < self.nodes@.len() implies #[trigger] self.lookup@.contains_key(self.nodes@[i].value)
                && self.lookup@[self.nodes@[i].value] == i by {
                if i < name {
                    assert(old_self.lookup@.contains_key(old_self.nodes@[i].value));
                    assert(old_self.nodes@[i].value != value);
                }
            }
            assert(self.nodes@[name as int].outgoing@ =~= Seq::<usize>::empty());
            assert(self.nodes@[name as int].incoming@ =~= Seq::<usize>::empty());
            assert(self.successors() =~= old_self.successors().push(Seq::empty()));
            assert forall|a: int, b: int|
                #![trigger self.nodes@[a].outgoing@.contains(b as usize)]
                #![trigger self.nodes@[b].incoming@.contains(a as usize)]
                0 <= a < self.nodes@.len() && 0 <= b < self.nodes@.len() implies
                (self.nodes@[a].outgoing@.contains(b as usize) <==> self.nodes@[b].incoming@.contains(a as usize)) by {
                if a < name && b == name {
                    if self.nodes@[a].outgoing@.contains(b as usize) {
                        let j = choose|j: int| 0 <= j < self.nodes@[a].outgoing@.len()
                            && self.nodes@[a].outgoing@[j] == b as usize;
                        assert(old_self.nodes@[a].outgoing@[j] < name);
                    }
                }
                if b < name && a == name {
                    if self.nodes@[b].incoming@.contains(a as usize) {
                        let j = choose|j: int| 0 <= j < self.nodes@[b].incoming@.len()
                            && self.nodes@[b].incoming@[j] == a as usize;
                        assert(old_self.nodes@[b].incoming@[j] < name);
                    }
                }
            }
            assert(old_self.simple() == self.simple()) by {
                if self.simple() {
                    assert forall|a: int| 0 <= a < old_self.nodes@.len() implies {
                        &&& (#[trigger] old_self.nodes@[a]).outgoing@.no_duplicates()
                        &&& old_self.nodes@[a].incoming@.no_duplicates()
                    } by {
                        assert(self.nodes@[a] == old_self.nodes@[a]);
                    }
                }
            }
            assert forall|a: int, b: int| #[trigger] self.edge(a, b) == old_self.edge(a, b) by {
                if 0 <= a < name {
                    assert(self.nodes@[a] == old_self.nodes@[a]);
                }
            }
        }
        if self.next_flag > 1 {
            let mut taken: Option<(Vec<usize>, Vec<usize>)> = None;
            std::mem::swap(&mut taken, &mut self.sort);
            let (mut pos_to_name, mut name_to_pos) = taken.unwrap();
            let ghost p2n = pos_to_name@;
            let ghost n2p = name_to_pos@;
            let mut at_pos = name;
            if let Some(after) = after {
                if let Some(after_name) = self.lookup.get(after) {
                    at_pos = name_to_pos[*after_name] + 1;
                }
            }
            pos_to_name.insert(at_pos, name);
            let mut k: usize = 0;
            while k < name_to_pos.len()
                invariant
                    name_to_pos@.len() == name,
                    n2p.len() == name,
                    at_pos <= name,
                    k <= name,
                    forall|j: int| 0 <= j < k ==> #[trigger] name_to_pos@[j]
                        == if n2p[j] >= at_pos { n2p[j] + 1 } else { n2p[j] as int },
                    forall|j: int| k <= j < name ==> #[trigger] name_to_pos@[j] == n2p[j],
                    forall|j: int| 0 <= j < name ==> #[trigger] n2p[j] < name,
                decreases name - k,
            {
                if name_to_pos[k] >= at_pos {
                    name_to_pos[k] = name_to_pos[k] + 1;
                }
                k += 1;
            }
            name_to_pos.push(at_pos);
            proof {
                let np2n = pos_to_name@;
                let nn2p = name_to_pos@;
                let n = name as nat + 1;
                assert forall|i: int| 0 <= i < n implies #[trigger] np2n[i] < n && nn2p[np2n[i] as int] == i by {
                    if i < at_pos {
                        assert(np2n[i] == p2n[i]);
                    } else if i > at_pos {
                        assert(np2n[i] == p2n[i - 1]);
                    }
                }
                assert forall|j: int| 0 <= j < n implies #[trigger] nn2p[j] < n && np2n[nn2p[j] as int] == j by {
                    if j < name {
                        assert(p2n[n2p[j] as int] == j);
                    }
                }
                assert forall|a: int, b: int| #[trigger] self.edge(a, b) implies nn2p[a] < nn2p[b] by {
                    assert(old_self.edge(a, b));
                }
                assert(np2n =~= p2n.insert(at_pos as int, name));
            }
            let ghost nn2p = name_to_pos@;
            self.sort = Some((pos_to_name, name_to_pos));
            proof {
                assert forall|a: int, b: int| #[trigger] self.edge(a, b) implies nn2p[a] < nn2p[b] by {
                    assert(old_self.edge(a, b));
                }
            }
        }
        proof {
            let n = self.nodes@.len();
            assert forall|a: int, j: int| 0 <= a < n && 0 <= j < self.nodes@[a].outgoing@.len()
                implies #[trigger] self.nodes@[a].outgoing@[j] < n by {
                if a < name {
                    assert(self.nodes@[a] == old_self.nodes@[a]);
                }
            }
            assert forall|a: int, j: int| 0 <= a < n && 0 <= j < self.nodes@[a].incoming@.len()
                implies #[trigger] self.nodes@[a].incoming@[j] < n by {
                if a < name {
                    assert(self.nodes@[a] == old_self.nodes@[a]);
                }
            }
            assert(1 <= self.next_flag <= FLAG_LIMIT);
            assert(forall|i: int| 0 <= i < n ==> #[trigger] self.nodes@[i].flag < self.next_flag);
            assert(forall|v: u64| #[trigger] self.lookup@.contains_key(v) ==> self.lookup@[v] < n
                && self.nodes@[self.lookup@[v] as int].value == v);
            assert(forall|i: int| 0 <= i < n ==> #[trigger] self.lookup@.contains_key(self.nodes@[i].value)
                && self.lookup@[self.nodes@[i].value] == i);
            assert(self.sort matches Some((p2n, n2p)) ==> is_permutation_pair(p2n@, n2p@, n));
        }
    }

    /// The number of flags drawn so far, plus one.
    pub closed spec fn flag_counter(&self) -> u64 {
        self.next_flag
    }

    /// Whether the held order (if any) is consistent with the arcs.
    proof fn lemma_order_acyclic(&self)
        requires
            self.wf(),
            self.has_order(),
        ensures
            acyclic(self.graph(), self.len()),
    {
        let n2p = self.position_of();
        let rank = n2p.map_values(|p: usize| p as int);
        assert(is_ranking(self.graph(), self.len(), rank));
    }

    /// Node lists and lookup as in `o`; only the working lists and the
    /// flags may differ.
    spec fn same_graph(&self, o: TopoSort) -> bool {
        &&& self.nodes@.len() == o.nodes@.len()
        &&& self.lookup == o.lookup
        &&& forall|a: int| 0 <= a < self.nodes@.len() ==> {
            &&& (#[trigger] self.nodes@[a]).outgoing@ == o.nodes@[a].outgoing@
            &&& self.nodes@[a].incoming@ == o.nodes@[a].incoming@
            &&& self.nodes@[a].value == o.nodes@[a].value
        }
    }

    /// There is one value per node.
    pub proof fn one_value_per_node(&self)
        ensures
            self.values().len() == self.len(),
    {
    }

    /// The successor lists hold exactly the arcs, each to a node.
    pub proof fn successors_are_arcs(&self)
        requires
            self.wf(),
        ensures
            self.successors().len() == self.len(),
            forall|a: int, j: int| 0 <= a < self.len() && 0 <= j < self.successors()[a].len()
                ==> #[trigger] self.successors()[a][j] < self.len(),
            forall|a: int, b: int| #[trigger] self.edge(a, b) <==> 0 <= a < self.len() && 0 <= b < self.len()
                && self.successors()[a].contains(b as usize),
    {
    }

    /// Graphs with the same arcs are simple together.
    proof fn lemma_simple_same(&self, o: TopoSort)
        requires
            self.same_graph(o),
        ensures
            self.simple() == o.simple(),
    {
        if self.simple() {
            assert forall|a: int| 0 <= a < o.nodes@.len() implies {
                &&& (#[trigger] o.nodes@[a]).outgoing@.no_duplicates()
                &&& o.nodes@[a].incoming@.no_duplicates()
            } by {
                assert(self.nodes@[a].outgoing@ == o.nodes@[a].outgoing@);
            }
        }
        if o.simple() {
            assert forall|a: int| 0 <= a < self.nodes@.len() implies {
                &&& (#[trigger] self.nodes@[a]).outgoing@.no_duplicates()
                &&& self.nodes@[a].incoming@.no_duplicates()
            } by {
                assert(o.nodes@[a].outgoing@ == self.nodes@[a].outgoing@);
                assert(o.nodes@[a].outgoing@.no_duplicates());
            }
        }
    }

    /// Every flag is below the next one to be drawn.
    spec fn flags_ok(&self) -> bool {
        forall|i: int| 0 <= i < self.nodes@.len() ==> #[trigger] self.nodes@[i].flag < self.next_flag
    }

    /// During a sort: the working list of each node that is not done holds,
    /// once each, its predecessors that are not done, and also `src` for the
    /// nodes in `later`.
    spec fn pending(&self, done: Seq<bool>, src: usize, later: Seq<usize>) -> bool {
        forall|v: int| 0 <= v < self.nodes@.len() && !done[v] ==> {
            &&& (#[trigger] self.nodes@[v]).incoming_build@.no_duplicates()
            &&& forall|u: usize| #[trigger] self.nodes@[v].incoming_build@.contains(u)
                <==> (self.nodes@[v].incoming@.contains(u) && (!done[u as int]
                    || (u == src && later.contains(v as usize))))
        }
    }

    /// During a sort: `ongoing` and `roots` together hold, once each, the
    /// nodes that are not done and have no pending predecessor.
    spec fn ready(&self, done: Seq<bool>, ongoing: Seq<usize>, roots: Seq<usize>) -> bool {
        &&& ongoing.no_duplicates()
        &&& roots.no_duplicates()
        &&& forall|x: usize| #[trigger] ongoing.contains(x) ==> !roots.contains(x)
        &&& forall|x: usize|
            #![trigger ongoing.contains(x)]
            #![trigger roots.contains(x)]
            #![trigger self.nodes@[x as int]]
            (ongoing.contains(x) || roots.contains(x)) <==> (x < self.nodes@.len() && !done[x as int]
                && self.nodes@[x as int].incoming_build@.len() == 0)
    }

    /// During a sort: every predecessor of a node that is done was done
    /// earlier.
    spec fn done_closed(&self, done: Seq<bool>, rank: Seq<usize>) -> bool {
        forall|u: int, v: int| 0 <= u < self.nodes@.len() && 0 <= v < self.nodes@.len() && done[v]
            && #[trigger] self.nodes@[v].incoming@.contains(u as usize) ==> done[u] && rank[u] < rank[v]
    }

    /// Resets each working list of predecessors to the full list.
    fn reset_build(&mut self)
        requires
            old(self).wf(),
        ensures
            final(self).same_graph(*old(self)),
            final(self).sort == old(self).sort,
            final(self).next_flag == old(self).next_flag,
            forall|a: int| 0 <= a < final(self).nodes@.len() ==> {
                &&& (#[trigger] final(self).nodes@[a]).incoming_build@ == final(self).nodes@[a].incoming@
                &&& final(self).nodes@[a].flag == old(self).nodes@[a].flag
            },
    {
        let ghost old_self = *old(self);
        let n = self.nodes.len();
        let mut i: usize = 0;
        while i < n
            invariant
                n == self.nodes@.len(),
                i <= n,
                self.same_graph(old_self),
                self.sort == old_self.sort,
                self.next_flag == old_self.next_flag,
                forall|a: int| 0 <= a < n ==> (#[trigger] self.nodes@[a]).flag == old_self.nodes@[a].flag,
                forall|a: int| 0 <= a < i ==> (#[trigger] self.nodes@[a]).incoming_build@ == self.nodes@[a].incoming@,
            decreases n - i,
        {
            let c = copy_indices(&self.nodes[i].incoming);
            self.nodes[i].incoming_build = c;
            i += 1;
        }
    }

    /// The nodes without predecessors, in descending order.
    fn collect_roots(&self, Ghost(base): Ghost<TopoSort>) -> (roots: Vec<usize>)
        requires
            base.wf(),
            self.same_graph(base),
        ensures
            roots@.no_duplicates(),
            forall|x: usize| #[trigger] roots@.contains(x) <==> (x < self.nodes@.len()
                && self.nodes@[x as int].incoming@.len() == 0),
            roots@ == kahn_roots(base.successors(), base.len(), 0),
    {
        let n = self.nodes.len();
        let ghost outs = base.successors();
        let mut roots: Vec<usize> = Vec::new();
        let mut i: usize = n;
        while i > 0
            invariant
                n == self.nodes@.len(),
                i <= n,
                base.wf(),
                self.same_graph(base),
                outs == base.successors(),
                roots@ == kahn_roots(outs, n as nat, i as nat),
                forall|k: int, l: int| 0 <= k < l < roots@.len() ==> #[trigger] roots@[k] > #[trigger] roots@[l],
                forall|x: usize| #[trigger] roots@.contains(x) <==> (i <= x < n
                    && self.nodes@[x as int].incoming@.len() == 0),
            decreases i,
        {
            i -= 1;
            proof {
                assert(self.nodes@[i as int].incoming@.len() == 0
                    <==> preds_done(outs, n as nat, Seq::empty(), i)) by {
                    let inc = base.nodes@[i as int].incoming@;
                    assert(self.nodes@[i as int].incoming@ == inc);
                    if inc.len() == 0 {
                        assert forall|u: int| 0 <= u < n && #[trigger] outs[u].contains(i) implies
                            Seq::<usize>::empty().contains(u as usize) by {
                            assert(outs[u] == base.nodes@[u].outgoing@);
                            assert(base.nodes@[u].outgoing@.contains(i as usize));
                            assert(inc.contains(u as usize));
                        }
                    } else {
                        let u = inc[0];
                        assert(inc.contains(u));
                        assert(u < n);
                        assert(outs[u as int] == base.nodes@[u as int].outgoing@);
                        assert(base.nodes@[u as int].outgoing@.contains(i));
                        assert(outs[u as int].contains(i));
                    }
                }
            }
            if self.nodes[i].incoming.len() == 0 {
                let ghost before = roots@;
                proof {
                    assert forall|k: int| 0 <= k < before.len() implies #[trigger] before[k] > i by {
                        assert(before.contains(before[k]));
                    }
                }
                roots.push(i);
                proof {
                    assert(roots@ == before.push(i));
                    assert forall|x: usize| #[trigger] roots@.contains(x) <==> (i <= x < n
                        && self.nodes@[x as int].incoming@.len() == 0) by {
                        if x == i {
                            assert(roots@[before.len() as int] == x);
                        } else {
                            if roots@.contains(x) {
                                let j = choose|j: int| 0 <= j < roots@.len() && roots@[j] == x;
                                assert(j != before.len());
                                assert(before[j] == x);
                                assert(before.contains(x));
                            }
                            if i <= x < n && self.nodes@[x as int].incoming@.len() == 0 {
                                assert(before.contains(x));
                                let j = choose|j: int| 0 <= j < before.len() && before[j] == x;
                                assert(roots@[j] == x);
                            }
                        }
                    }
                }
            }
        }
        proof {
            assert forall|k: int, l: int| 0 <= k < roots@.len() && 0 <= l < roots@.len() && k != l
                implies roots@[k] != roots@[l] by {
                if k < l {
                    assert(roots@[k] > roots@[l]);
                } else {
                    assert(roots@[l] > roots@[k]);
                }
            }
        }
        roots
    }

    /// Releases the successors of `src`, which has just been done: `src`
    /// leaves their working lists, and those left with none become ready.
    #[verifier::spinoff_prover]
    #[verifier::rlimit(40)]
    fn release_successors(
        &mut self,
        src: usize,
        our_flag: u64,
        ongoing: &mut Vec<usize>,
        roots: &Vec<usize>,
        Ghost(done): Ghost<Seq<bool>>,
        Ghost(next): Ghost<Seq<usize>>,
        Ghost(base): Ghost<TopoSort>,
    )
        requires
            forall|x: usize| x < old(self).nodes@.len() ==> (done[x as int] <==> #[trigger] next.contains(x)),
            base.wf(),
            base.simple(),
            old(self).same_graph(base),
            old(self).sort == base.sort,
            old(self).next_flag == our_flag + 1,
            our_flag < FLAG_LIMIT,
            old(self).flags_ok(),
            src < old(self).nodes@.len(),
            done.len() == old(self).nodes@.len(),
            done[src as int],
            forall|v: int| 0 <= v < done.len() && base.nodes@[src as int].outgoing@.contains(v as usize)
                ==> !#[trigger] done[v],
            old(self).pending(done, src, base.nodes@[src as int].outgoing@),
            old(self).ready(done, old(ongoing)@, roots@),
        ensures
            final(self).same_graph(base),
            final(self).sort == base.sort,
            final(self).next_flag == our_flag + 1,
            final(self).flags_ok(),
            final(self).pending(done, src, Seq::empty()),
            final(self).ready(done, final(ongoing)@, roots@),
            final(ongoing)@ == old(ongoing)@ + base.successors()[src as int].filter(
                released_by(base.successors(), base.len(), next),
            ),
    {
        let n = self.nodes.len();
        let out_len = self.nodes[src].outgoing.len();
        let ghost out = base.nodes@[src as int].outgoing@;
        let ghost outs = base.successors();
        let ghost f = released_by(outs, n as nat, next);
        let ghost og0 = ongoing@;
        assert(out.subrange(0, out_len as int) =~= out);
        assert(outs[src as int] == out);
        proof {
            reveal(Seq::filter);
            assert(out.subrange(0, 0) =~= Seq::<usize>::empty());
            assert(og0 + Seq::<usize>::empty() =~= og0);
        }
        let mut k: usize = 0;
        while k < out_len
            invariant
                base.wf(),
                base.simple(),
                self.same_graph(base),
                self.sort == base.sort,
                self.next_flag == our_flag + 1,
                our_flag < FLAG_LIMIT,
                self.flags_ok(),
                n == self.nodes@.len(),
                src < n,
                done.len() == n,
                done[src as int],
                out == base.nodes@[src as int].outgoing@,
                out_len == out.len(),
                k <= out_len,
                forall|v: int| 0 <= v < n && out.contains(v as usize) ==> !#[trigger] done[v],
                self.pending(done, src, out.subrange(k as int, out_len as int)),
                self.ready(done, ongoing@, roots@),
                outs == base.successors(),
                base.len() == n,
                f == released_by(outs, n as nat, next),
                forall|x: usize| x < n ==> (done[x as int] <==> #[trigger] next.contains(x)),
                ongoing@ == og0 + out.subrange(0, k as int).filter(f),
            decreases out_len - k,
        {
            let dst = self.nodes[src].outgoing[k];
            let ghost later = out.subrange(k as int, out_len as int);
            let ghost rest = out.subrange(k as int + 1, out_len as int);
            proof {
                assert(out[k as int] == dst);
                assert(dst < n);
                assert(out.contains(dst));
                assert(base.nodes@[src as int].outgoing@.contains(dst));
                assert(!done[dst as int]);
                assert(base.nodes@[dst as int].incoming@.contains(src));
                assert(later[0] == dst);
                assert(later.contains(dst));
                assert(self.nodes@[dst as int].incoming_build@.contains(src));
                assert(later =~= seq![dst] + rest);
                assert(!rest.contains(dst)) by {
                    if rest.contains(dst) {
                        let j = choose|j: int| 0 <= j < rest.len() && rest[j] == dst;
                        assert(out[k as int + 1 + j] == out[k as int]);
                    }
                }
            }
            let p = find_index(&self.nodes[dst].incoming_build, src);
            let ghost ib = self.nodes@[dst as int].incoming_build@;
            let ghost before = *self;
            let ghost og = ongoing@;
            let fl = self.nodes[dst].flag;
            proof {
                assert(fl < FLAG_LIMIT);
                assert(fl < 0x8000_0000_0000_0000u64 && our_flag < 0x8000_0000_0000_0000u64
                    ==> !fl != our_flag) by (bit_vector);
            }
            if !fl != our_flag {
                self.nodes[dst].incoming_build.swap_remove(p);
                proof {
                    lemma_swap_remove(ib, p as int);
                }
                if self.nodes[dst].incoming_build.len() == 0 {
                    ongoing.push(dst);
                    self.nodes[dst].flag = our_flag;
                }
            }
            k += 1;
            proof {
                let nib = self.nodes@[dst as int].incoming_build@;
                assert(nib =~= ib.update(p as int, ib.last()).drop_last());
                assert forall|a: int| 0 <= a < n && a != dst as int implies
                    #[trigger] self.nodes@[a] == before.nodes@[a] by {}
                assert(self.same_graph(base)) by {
                    assert forall|a: int| 0 <= a < n implies {
                        &&& (#[trigger] self.nodes@[a]).outgoing@ == base.nodes@[a].outgoing@
                        &&& self.nodes@[a].incoming@ == base.nodes@[a].incoming@
                        &&& self.nodes@[a].value == base.nodes@[a].value
                    } by {
                        assert(before.nodes@[a].outgoing@ == base.nodes@[a].outgoing@);
                    }
                }
                assert(self.flags_ok()) by {
                    assert forall|i: int| 0 <= i < n implies #[trigger] self.nodes@[i].flag < self.next_flag by {
                        assert(before.nodes@[i].flag < before.next_flag);
                    }
                }
                assert(self.pending(done, src, rest)) by {
                    assert forall|v: int| 0 <= v < n && !done[v] implies {
                        &&& (#[trigger] self.nodes@[v]).incoming_build@.no_duplicates()
                        &&& forall|u: usize| #[trigger] self.nodes@[v].incoming_build@.contains(u)
                            <==> (self.nodes@[v].incoming@.contains(u) && (!done[u as int]
                                || (u == src && rest.contains(v as usize))))
                    } by {
                        assert(before.nodes@[v].incoming_build@.no_duplicates());
                        if v != dst as int {
                            assert(later.contains(v as usize) == rest.contains(v as usize)) by {
                                if later.contains(v as usize) {
                                    let j = choose|j: int| 0 <= j < later.len() && later[j] == v as usize;
                                    assert(j != 0);
                                    assert(rest[j - 1] == v as usize);
                                }
                                if rest.contains(v as usize) {
                                    let j = choose|j: int| 0 <= j < rest.len() && rest[j] == v as usize;
                                    assert(later[j + 1] == v as usize);
                                }
                            }
                            assert forall|u: usize| #[trigger] self.nodes@[v].incoming_build@.contains(u)
                                <==> (self.nodes@[v].incoming@.contains(u) && (!done[u as int]
                                    || (u == src && rest.contains(v as usize)))) by {
                                assert(before.nodes@[v].incoming_build@.contains(u)
                                    <==> (before.nodes@[v].incoming@.contains(u) && (!done[u as int]
                                        || (u == src && later.contains(v as usize)))));
                            }
                        } else {
                            assert forall|u: usize| #[trigger] self.nodes@[v].incoming_build@.contains(u)
                                <==> (self.nodes@[v].incoming@.contains(u) && (!done[u as int]
                                    || (u == src && rest.contains(v as usize)))) by {
                                assert(ib.contains(u)
                                    <==> (before.nodes@[v].incoming@.contains(u) && (!done[u as int]
                                        || (u == src && later.contains(v as usize)))));
                            }
                        }
                    }
                }
                assert(self.ready(done, ongoing@, roots@)) by {
                    assert(ib.len() > 0) by {
                        assert(ib.contains(src));
                    }
                    assert(!og.contains(dst) && !roots@.contains(dst)) by {
                        if og.contains(dst) || roots@.contains(dst) {
                            assert(before.nodes@[dst as int].incoming_build@.len() == 0);
                        }
                    }
                    assert forall|x: usize| #[trigger] ongoing@.contains(x) <==> (og.contains(x)
                        || (x == dst && nib.len() == 0)) by {
                        if nib.len() == 0 {
                            if ongoing@.contains(x) && x != dst {
                                let j = choose|j: int| 0 <= j < ongoing@.len() && ongoing@[j] == x;
                                assert(j < og.len());
                                assert(og[j] == x);
                            }
                            if og.contains(x) {
                                let j = choose|j: int| 0 <= j < og.len() && og[j] == x;
                                assert(ongoing@[j] == x);
                            }
                            assert(ongoing@[og.len() as int] == dst);
                        } else {
                            assert(ongoing@ == og);
                        }
                    }
                    assert(ongoing@.no_duplicates()) by {
                        if nib.len() == 0 {
                            assert forall|a: int, b: int| 0 <= a < ongoing@.len() && 0 <= b < ongoing@.len()
                                && a != b implies ongoing@[a] != ongoing@[b] by {
                                if a == og.len() as int {
                                    assert(og.contains(ongoing@[b]) ==> ongoing@[b] != dst);
                                    assert(og[b] == ongoing@[b]);
                                } else if b == og.len() as int {
                                    assert(og[a] == ongoing@[a]);
                                } else {
                                    assert(og[a] == ongoing@[a] && og[b] == ongoing@[b]);
                                }
                            }
                        }
                    }
                    assert forall|x: usize|
                        #![trigger ongoing@.contains(x)]
                        #![trigger roots@.contains(x)]
                        #![trigger self.nodes@[x as int]]
                        (ongoing@.contains(x) || roots@.contains(x)) <==> (x < self.nodes@.len() && !done[x as int]
                            && self.nodes@[x as int].incoming_build@.len() == 0) by {
                        assert((og.contains(x) || roots@.contains(x)) <==> (x < before.nodes@.len() && !done[x as int]
                            && before.nodes@[x as int].incoming_build@.len() == 0));
                    }
                }
            }
            proof {
                let nib = self.nodes@[dst as int].incoming_build@;
                assert(f(dst) <==> nib.len() == 0) by {
                    assert(!done[dst as int]);
                    assert(!rest.contains(dst));
                    assert(forall|u: usize| #[trigger] nib.contains(u)
                        <==> (self.nodes@[dst as int].incoming@.contains(u) && !done[u as int]));
                    let inc = base.nodes@[dst as int].incoming@;
                    assert(self.nodes@[dst as int].incoming@ == inc);
                    if nib.len() == 0 {
                        assert forall|u: int| 0 <= u < n && #[trigger] outs[u].contains(dst) implies
                            next.contains(u as usize) by {
                            assert(outs[u] == base.nodes@[u].outgoing@);
                            assert(base.nodes@[u].outgoing@.contains(dst));
                            assert(inc.contains(u as usize));
                            if !done[u] {
                                assert(nib.contains(u as usize));
                            }
                        }
                    } else {
                        let u = nib[0];
                        assert(nib.contains(u));
                        assert(inc.contains(u));
                        let j = choose|j: int| 0 <= j < inc.len() && inc[j] == u;
                        assert(u < n);
                        assert(outs[u as int] == base.nodes@[u as int].outgoing@);
                        assert(base.nodes@[u as int].outgoing@.contains(dst));
                        assert(!next.contains(u));
                    }
                }
                let sub = out.subrange(0, k as int);
                let prev = out.subrange(0, k - 1);
                assert(sub.drop_last() =~= prev);
                assert(sub.last() == dst);
                reveal(Seq::filter);
                assert(sub.filter(f) == if f(dst) { prev.filter(f).push(dst) } else { prev.filter(f) });
                if nib.len() == 0 {
                    assert(ongoing@ =~= og.push(dst));
                    assert(ongoing@ =~= og0 + sub.filter(f));
                } else {
                    assert(ongoing@ == og);
                }
            }
        }
        proof {
            assert(out.subrange(k as int, out_len as int) =~= Seq::<usize>::empty());
        }
    }

    /// Sorts the graph (Kahn's algorithm, taking the most recently released
    /// node first and the roots in order). Succeeds, and holds the order,
    /// exactly when the graph has no cycle; a failed sort leaves no order.
    #[verifier::spinoff_prover]
    #[verifier::rlimit(60)]
    pub fn sort(&mut self) -> (r: bool)
        requires
            old(self).wf(),
            old(self).simple(),
            old(self).flags_left(),
        ensures
            final(self).wf(),
            final(self).simple(),
            final(self).sort_attempted(),
            final(self).flag_counter() == old(self).flag_counter() + 1,
            final(self).len() == old(self).len(),
            final(self).values() == old(self).values(),
            forall|v: u64| #[trigger] final(self).index_of(v) == old(self).index_of(v),
            forall|a: int, b: int| #[trigger] final(self).edge(a, b) == old(self).edge(a, b),
            final(self).successors() == old(self).successors(),
            r == acyclic(old(self).graph(), old(self).len()),
            r == final(self).has_order(),
            old(self).has_order() ==> r,
            r ==> final(self).positions() == kahn_order(old(self).successors(), old(self).len()),
    {
        proof {
            if old(self).has_order() {
                old(self).lemma_order_acyclic();
            }
        }
        let ghost old_self = *old(self);
        let ghost g = old_self.graph();
        let our_flag = self.next_flag;
        let n = self.nodes.len();
        let ghost nn = n as nat;
        self.reset_build();
        self.next_flag = self.next_flag + 1;
        let mut roots = self.collect_roots(Ghost(old_self));
        let ghost outs = old_self.successors();
        let mut ongoing: Vec<usize> = Vec::new();
        let mut sorted: Vec<usize> = Vec::new();
        let mut rev_sorted: Vec<usize> = Vec::new();
        let mut i: usize = 0;
        while i < n
            invariant
                i <= n,
                rev_sorted@.len() == i,
            decreases n - i,
        {
            rev_sorted.push(0);
            i += 1;
        }
        let ghost mut done: Seq<bool> = Seq::new(nn, |v: int| false);
        proof {
            assert(self.flags_ok()) by {
                assert forall|i: int| 0 <= i < n implies #[trigger] self.nodes@[i].flag < self.next_flag by {
                    assert(old_self.nodes@[i].flag < old_self.next_flag);
                }
            }
            assert(self.pending(done, 0, Seq::empty())) by {
                assert forall|v: int| 0 <= v < n && !done[v] implies {
                    &&& (#[trigger] self.nodes@[v]).incoming_build@.no_duplicates()
                    &&& forall|u: usize| #[trigger] self.nodes@[v].incoming_build@.contains(u)
                        <==> (self.nodes@[v].incoming@.contains(u) && (!done[u as int]
                            || (u == 0 && Seq::<usize>::empty().contains(v as usize))))
                } by {
                    assert(old_self.nodes@[v].incoming@.no_duplicates());
                    assert forall|u: usize| #[trigger] self.nodes@[v].incoming_build@.contains(u)
                        implies u < n by {
                        let j = choose|j: int| 0 <= j < self.nodes@[v].incoming@.len()
                            && self.nodes@[v].incoming@[j] == u;
                        assert(old_self.nodes@[v].incoming@[j] < n);
                    }
                }
            }
            assert(self.ready(done, ongoing@, roots@)) by {
                assert forall|x: usize|
                    #![trigger ongoing@.contains(x)]
                    #![trigger roots@.contains(x)]
                    #![trigger self.nodes@[x as int]]
                    (ongoing@.contains(x) || roots@.contains(x)) <==> (x < self.nodes@.len() && !done[x as int]
                        && self.nodes@[x as int].incoming_build@.len() == 0) by {
                    assert(roots@.contains(x) <==> (x < self.nodes@.len()
                        && self.nodes@[x as int].incoming@.len() == 0));
                }
            }
        }
        while ongoing.len() > 0 || roots.len() > 0
            invariant
                old_self.wf(),
                old_self.simple(),
                g == old_self.graph(),
                self.same_graph(old_self),
                self.sort == old_self.sort,
                our_flag < FLAG_LIMIT,
                self.next_flag == our_flag + 1,
                self.flags_ok(),
                n == self.nodes@.len(),
                nn == n,
                done.len() == n,
                rev_sorted@.len() == n,
                sorted@.no_duplicates(),
                forall|k: int| 0 <= k < sorted@.len() ==> #[trigger] sorted@[k] < n
                    && rev_sorted@[sorted@[k] as int] == k,
                forall|x: usize| x < n ==> (done[x as int] <==> #[trigger] sorted@.contains(x)),
                self.pending(done, 0, Seq::empty()),
                self.ready(done, ongoing@, roots@),
                old_self.done_closed(done, rev_sorted@),
                outs == old_self.successors(),
                old_self.len() == nn,
                sorted@ == kahn_run(outs, nn, sorted@.len()).0,
                ongoing@ == kahn_run(outs, nn, sorted@.len()).1,
                roots@ == kahn_run(outs, nn, sorted@.len()).2,
            decreases n - sorted@.len(),
        {
            proof {
                lemma_distinct_bound(sorted@, nn);
            }
            let ghost og = ongoing@;
            let ghost rt = roots@;
            let src = if ongoing.len() > 0 {
                ongoing.pop().unwrap()
            } else {
                roots.pop().unwrap()
            };
            let ghost done_before = done;
            let ghost rev_before = rev_sorted@;
            let ghost sorted_before = sorted@;
            proof {
                if og.len() > 0 {
                    assert(og[og.len() - 1] == src);
                    assert(og.contains(src));
                    assert(ongoing@ =~= og.drop_last());
                    assert(roots@ == rt);
                } else {
                    assert(rt[rt.len() - 1] == src);
                    assert(rt.contains(src));
                    assert(roots@ =~= rt.drop_last());
                    assert(ongoing@ == og);
                }
                assert(src < n && !done[src as int]);
                assert(self.nodes@[src as int].incoming_build@.len() == 0);
                assert forall|u: int| 0 <= u < n && #[trigger] self.nodes@[src as int].incoming@.contains(u as usize)
                    implies done[u] by {
                    if !done[u] {
                        assert(self.nodes@[src as int].incoming_build@.contains(u as usize));
                    }
                }
            }
            rev_sorted.set(src, sorted.len());
            sorted.push(src);
            proof {
                done = done.update(src as int, true);
                let l = sorted_before.len();
                assert(sorted@ == sorted_before.push(src));
                assert forall|x: usize| x < n implies (done[x as int] <==> #[trigger] sorted@.contains(x)) by {
                    assert(done_before[x as int] <==> sorted_before.contains(x));
                    if x == src {
                        assert(sorted@[l as int] == src);
                    } else {
                        if sorted@.contains(x) {
                            let j = choose|j: int| 0 <= j < sorted@.len() && sorted@[j] == x;
                            assert(j != l);
                            assert(sorted_before[j] == x);
                        }
                        if sorted_before.contains(x) {
                            let j = choose|j: int| 0 <= j < sorted_before.len() && sorted_before[j] == x;
                            assert(sorted@[j] == x);
                        }
                    }
                }
                assert(sorted@.no_duplicates()) by {
                    assert forall|a: int, b: int| 0 <= a < sorted@.len() && 0 <= b < sorted@.len() && a != b
                        implies sorted@[a] != sorted@[b] by {
                        if a == l {
                            assert(sorted@[b] == sorted_before[b]);
                            assert(sorted_before.contains(sorted_before[b]));
                            assert(done_before[sorted_before[b] as int]);
                        } else if b == l {
                            assert(sorted@[a] == sorted_before[a]);
                            assert(sorted_before.contains(sorted_before[a]));
                            assert(done_before[sorted_before[a] as int]);
                        }
                    }
                }
                assert forall|k: int| 0 <= k < sorted@.len() implies #[trigger] sorted@[k] < n
                    && rev_sorted@[sorted@[k] as int] == k by {
                    if k < l {
                        assert(sorted_before[k] != src) by {
                            assert(sorted_before.contains(sorted_before[k]));
                            assert(done_before[sorted_before[k] as int]);
                        }
                    }
                }
                assert(old_self.done_closed(done, rev_sorted@)) by {
                    assert forall|u: int, v: int| 0 <= u < n && 0 <= v < n && done[v]
                        && #[trigger] old_self.nodes@[v].incoming@.contains(u as usize)
                        implies done[u] && rev_sorted@[u] < rev_sorted@[v] by {
                        if v == src {
                            assert(done_before[u]);
                            assert(done_before[(u as usize) as int] <==> sorted_before.contains(u as usize));
                            assert(sorted_before.contains(u as usize));
                            let j = choose|j: int| 0 <= j < sorted_before.len() && sorted_before[j] == u as usize;
                            assert(rev_before[u] == j);
                            assert(u != src);
                        } else {
                            assert(done_before[v]);
                            assert(done_before[u]);
                            assert(u != src);
                        }
                    }
                }
                assert forall|v: int| 0 <= v < n && old_self.nodes@[src as int].outgoing@.contains(v as usize)
                    implies !#[trigger] done[v] by {
                    assert(old_self.nodes@[v].incoming@.contains(src));
                    if done_before[v] {
                        assert(done_before[src as int]);
                    }
                    if v == src {
                        assert(self.nodes@[src as int].incoming@.contains(src));
                    }
                }
                assert(self.pending(done, src, old_self.nodes@[src as int].outgoing@)) by {
                    let out = old_self.nodes@[src as int].outgoing@;
                    assert forall|v: int| 0 <= v < n && !done[v] implies {
                        &&& (#[trigger] self.nodes@[v]).incoming_build@.no_duplicates()
                        &&& forall|u: usize| #[trigger] self.nodes@[v].incoming_build@.contains(u)
                            <==> (self.nodes@[v].incoming@.contains(u) && (!done[u as int]
                                || (u == src && out.contains(v as usize))))
                    } by {
                        assert(!done_before[v]);
                        assert forall|u: usize| #[trigger] self.nodes@[v].incoming_build@.contains(u)
                            <==> (self.nodes@[v].incoming@.contains(u) && (!done[u as int]
                                || (u == src && out.contains(v as usize)))) by {
                            assert(self.nodes@[v].incoming_build@.contains(u)
                                <==> (self.nodes@[v].incoming@.contains(u) && !done_before[u as int]));
                            if u == src {
                                assert(out.contains(v as usize) <==> old_self.nodes@[v].incoming@.contains(src));
                            }
                        }
                    }
                }
                assert(self.ready(done, ongoing@, roots@)) by {
                    assert forall|x: usize| #[trigger] ongoing@.contains(x) ==> og.contains(x) && x != src by {
                        if ongoing@.contains(x) && og.len() > 0 {
                            let j = choose|j: int| 0 <= j < ongoing@.len() && ongoing@[j] == x;
                            assert(og[j] == x);
                        }
                    }
                    assert forall|x: usize| #[trigger] roots@.contains(x) ==> rt.contains(x) && x != src by {
                        if roots@.contains(x) && og.len() == 0 {
                            let j = choose|j: int| 0 <= j < roots@.len() && roots@[j] == x;
                            assert(rt[j] == x);
                        }
                    }
                    assert forall|x: usize|
                        #![trigger ongoing@.contains(x)]
                        #![trigger roots@.contains(x)]
                        #![trigger self.nodes@[x as int]]
                        (ongoing@.contains(x) || roots@.contains(x)) <==> (x < self.nodes@.len() && !done[x as int]
                            && self.nodes@[x as int].incoming_build@.len() == 0) by {
                        if x != src && (og.contains(x) || rt.contains(x)) {
                            if og.contains(x) && og.len() > 0 {
                                let j = choose|j: int| 0 <= j < og.len() && og[j] == x;
                                assert(j != og.len() - 1);
                                assert(ongoing@[j] == x);
                            } else if og.contains(x) {
                            } else if og.len() == 0 {
                                let j = choose|j: int| 0 <= j < rt.len() && rt[j] == x;
                                assert(j != rt.len() - 1);
                                assert(roots@[j] == x);
                            } else {
                                assert(roots@ == rt);
                            }
                        }
                    }
                }
            }
            let ghost ong_mid = ongoing@;
            self.release_successors(src, our_flag, &mut ongoing, &roots, Ghost(done), Ghost(sorted@), Ghost(old_self));
            proof {
                let k = sorted_before.len();
                let st = kahn_run(outs, nn, k);
                assert(kahn_run(outs, nn, (k + 1) as nat) == kahn_step(outs, nn, st));
                assert(sorted@.len() == k + 1);
                let f = released_by(outs, nn, sorted@);
                assert(ongoing@ == ong_mid + outs[src as int].filter(f));
                if og.len() > 0 {
                    assert(src == og.last());
                    assert(ong_mid == og.drop_last());
                } else {
                    assert(src == rt.last());
                    assert(ong_mid == og);
                    assert(og + outs[src as int].filter(f) =~= outs[src as int].filter(f));
                }
            }
            proof {
                assert(self.pending(done, 0, Seq::empty())) by {
                    assert forall|v: int| 0 <= v < n && !done[v] implies {
                        &&& (#[trigger] self.nodes@[v]).incoming_build@.no_duplicates()
                        &&& forall|u: usize| #[trigger] self.nodes@[v].incoming_build@.contains(u)
                            <==> (self.nodes@[v].incoming@.contains(u) && (!done[u as int]
                                || (u == 0 && Seq::<usize>::empty().contains(v as usize))))
                    } by {
                        assert forall|u: usize| #[trigger] self.nodes@[v].incoming_build@.contains(u)
                            <==> (self.nodes@[v].incoming@.contains(u) && (!done[u as int]
                                || (u == 0 && Seq::<usize>::empty().contains(v as usize)))) by {
                            assert(self.nodes@[v].incoming_build@.contains(u)
                                <==> (self.nodes@[v].incoming@.contains(u) && (!done[u as int]
                                    || (u == src && Seq::<usize>::empty().contains(v as usize)))));
                        }
                    }
                }
                lemma_distinct_bound(sorted@, nn);
            }
        }
        proof {
            assert forall|u: int, v: int| 0 <= u < n && 0 <= v < n implies
                (#[trigger] g(u, v) <==> self.nodes@[v].incoming@.contains(u as usize)) by {
                assert(g(u, v) == old_self.edge(u, v));
            }
        }
        if sorted.len() == n {
            proof {
                assert forall|v: int| 0 <= v < n implies #[trigger] done[v] by {
                    if !done[v] {
                        assert(!sorted@.contains(v as usize));
                        let t = sorted@.push(v as usize);
                        assert(t.no_duplicates()) by {
                            assert forall|a: int, b: int| 0 <= a < t.len() && 0 <= b < t.len() && a != b
                                implies t[a] != t[b] by {
                                if a == n as int {
                                    assert(sorted@.contains(t[b]));
                                } else if b == n as int {
                                    assert(sorted@.contains(t[a]));
                                } else {
                                    assert(t[a] == sorted@[a] && t[b] == sorted@[b]);
                                }
                            }
                        }
                        assert forall|i: int| 0 <= i < t.len() implies #[trigger] t[i] < nn by {
                            if i < n as int {
                                assert(t[i] == sorted@[i]);
                            }
                        }
                        lemma_distinct_bound(t, nn);
                    }
                }
            }
            let ghost p2n = sorted@;
            let ghost n2p = rev_sorted@;
            assert(p2n == kahn_order(outs, nn));
            self.sort = Some((sorted, rev_sorted));
            proof {
                assert forall|j: int| 0 <= j < n implies #[trigger] n2p[j] < n && p2n[n2p[j] as int] == j by {
                    assert(done[j]);
                    assert(p2n.contains(j as usize));
                    let k = choose|k: int| 0 <= k < p2n.len() && p2n[k] == j as usize;
                    assert(n2p[j] == k);
                }
                assert(is_permutation_pair(p2n, n2p, nn));
                assert forall|a: int, b: int| #[trigger] self.edge(a, b) implies n2p[a] < n2p[b] by {
                    assert(old_self.edge(a, b));
                    assert(g(a, b));
                    assert(done[b]);
                }
                assert forall|a: int, b: int| #[trigger] self.edge(a, b) == old_self.edge(a, b) by {}
                assert(self.wf());
                self.lemma_order_acyclic();
                assert(self.graph() =~= g);
            }
            true
        } else {
            proof {
                assert(sorted@.len() < nn) by {
                    lemma_distinct_bound(sorted@, nn);
                }
                let v0 = lemma_distinct_missing(sorted@, nn);
                assert(!done[v0 as int]);
                assert forall|v: int| 0 <= v < n && !done[v] implies
                    exists|u: int| 0 <= u < n && !done[u] && #[trigger] g(u, v) by {
                    assert(!ongoing@.contains(v as usize) && !roots@.contains(v as usize));
                    assert(self.nodes@[v].incoming_build@.len() > 0);
                    let w = self.nodes@[v].incoming_build@[0];
                    assert(self.nodes@[v].incoming_build@.contains(w));
                    assert(self.nodes@[v].incoming@.contains(w) && !done[w as int]);
                    assert(old_self.nodes@[v].incoming@.contains(w));
                    let j = choose|j: int| 0 <= j < old_self.nodes@[v].incoming@.len()
                        && old_self.nodes@[v].incoming@[j] == w;
                    assert(w < n);
                    assert(g(w as int, v));
                }
                lemma_stuck_not_acyclic(g, nn, done, v0 as int);
                assert forall|a: int, b: int| #[trigger] self.edge(a, b) == old_self.edge(a, b) by {}
                assert(self.wf());
                if old_self.has_order() {
                    old_self.lemma_order_acyclic();
                }
            }
            false
        }
    }

    /// Whether a successor of node `name` carries `flag`.
    fn any_flagged(&self, name: usize, flag: u64, Ghost(base): Ghost<TopoSort>) -> (r: bool)
        requires
            base.wf(),
            self.same_graph(base),
            name < self.nodes@.len(),
        ensures
            r <==> exists|k: usize| #[trigger] self.nodes@[name as int].outgoing@.contains(k)
                && self.nodes@[k as int].flag == flag,
    {
        let len = self.nodes[name].outgoing.len();
        let mut j: usize = 0;
        while j < len
            invariant
                base.wf(),
                self.same_graph(base),
                name < self.nodes@.len(),
                len == self.nodes@[name as int].outgoing@.len(),
                j <= len,
                forall|i: int| 0 <= i < j ==> #[trigger] self.nodes@[self.nodes@[name as int].outgoing@[i] as int].flag
                    != flag,
            decreases len - j,
        {
            let dst = self.nodes[name].outgoing[j];
            proof {
                assert(base.nodes@[name as int].outgoing@[j as int] < base.nodes@.len());
            }
            if self.nodes[dst].flag == flag {
                proof {
                    assert(self.nodes@[name as int].outgoing@.contains(dst));
                }
                return true;
            }
            j += 1;
        }
        proof {
            if exists|k: usize| #[trigger] self.nodes@[name as int].outgoing@.contains(k)
                && self.nodes@[k as int].flag == flag {
                let k = choose|k: usize| #[trigger] self.nodes@[name as int].outgoing@.contains(k)
                    && self.nodes@[k as int].flag == flag;
                let i = choose|i: int| 0 <= i < len && self.nodes@[name as int].outgoing@[i] == k;
                assert(self.nodes@[self.nodes@[name as int].outgoing@[i] as int].flag != flag);
            }
        }
        false
    }

    /// Marks with `flag` exactly the nodes placed from `b_pos` to `a_pos` in
    /// the order of `base` that reach `a`, the node at `a_pos`.
    #[verifier::spinoff_prover]
    #[verifier::rlimit(40)]
    fn flag_reaching(
        &mut self,
        p2n: &Vec<usize>,
        a: usize,
        a_pos: usize,
        b_pos: usize,
        flag: u64,
        Ghost(base): Ghost<TopoSort>,
    )
        requires
            base.wf(),
            base.has_order(),
            old(self).same_graph(base),
            p2n@ == base.positions(),
            a < old(self).nodes@.len(),
            a_pos == base.position_of()[a as int],
            b_pos < a_pos,
            forall|i: int| 0 <= i < old(self).nodes@.len() ==> #[trigger] old(self).nodes@[i].flag < flag,
        ensures
            final(self).same_graph(base),
            final(self).next_flag == old(self).next_flag,
            forall|i: int| 0 <= i < final(self).nodes@.len() ==> #[trigger] final(self).nodes@[i].flag <= flag,
            forall|x: int| 0 <= x < final(self).nodes@.len() ==> (#[trigger] final(self).nodes@[x].flag == flag
                <==> (b_pos <= base.position_of()[x] <= a_pos && reaches(base.graph(), x as usize, a))),
    {
        let ghost g = base.graph();
        let ghost n2p = base.position_of();
        let n = self.nodes.len();
        proof {
            assert(p2n@[a_pos as int] == a);
            assert forall|u: int, v: int| #[trigger] g(u, v) implies n2p[u] < n2p[v] by {
                assert(base.edge(u, v));
            }
        }
        let top = p2n[a_pos];
        self.nodes[top].flag = flag;
        proof {
            lemma_reaches_self(g, a);
            assert forall|x: int| 0 <= x < n implies (#[trigger] self.nodes@[x].flag == flag
                <==> (a_pos <= n2p[x] <= a_pos && reaches(g, x as usize, a))) by {
                if x != a as int {
                    assert(p2n@[n2p[x] as int] == x);
                }
            }
        }
        let mut pos = a_pos;
        while pos > b_pos
            invariant
                base.wf(),
                base.has_order(),
                self.same_graph(base),
                self.next_flag == old(self).next_flag,
                g == base.graph(),
                n2p == base.position_of(),
                p2n@ == base.positions(),
                n == self.nodes@.len(),
                a < n,
                a_pos == n2p[a as int],
                b_pos <= pos <= a_pos,
                forall|u: int, v: int| #[trigger] g(u, v) ==> n2p[u] < n2p[v],
                forall|i: int| 0 <= i < n ==> #[trigger] self.nodes@[i].flag <= flag,
                forall|x: int| 0 <= x < n ==> (#[trigger] self.nodes@[x].flag == flag
                    <==> (pos <= n2p[x] <= a_pos && reaches(g, x as usize, a))),
            decreases pos,
        {
            pos -= 1;
            let name = p2n[pos];
            let ghost before = *self;
            proof {
                assert(n2p[name as int] == pos);
                assert(self.nodes@[name as int].flag != flag);
            }
            let hit = self.any_flagged(name, flag, Ghost(base));
            proof {
                if reaches(g, name, a) {
                    assert(name != a);
                    let y = lemma_reaches_first(g, name, a);
                    assert(base.edge(name as int, y as int));
                    assert(n2p[name as int] < n2p[y as int]);
                    if y != a {
                        lemma_reaches_rank(g, n2p, y, a);
                    }
                    assert(self.nodes@[y as int].flag == flag);
                    assert(self.nodes@[name as int].outgoing@.contains(y));
                }
                if hit {
                    let k = choose|k: usize| #[trigger] self.nodes@[name as int].outgoing@.contains(k)
                        && self.nodes@[k as int].flag == flag;
                    assert(base.nodes@[name as int].outgoing@.contains(k));
                    let i = choose|i: int| 0 <= i < base.nodes@[name as int].outgoing@.len()
                        && base.nodes@[name as int].outgoing@[i] == k;
                    assert(k < n);
                    assert(base.edge(name as int, k as int));
                    assert(g(name as int, k as int));
                    assert(reaches(g, k, a));
                    lemma_reaches_step(g, name, k, a);
                }
            }
            if hit {
                self.nodes[name].flag = flag;
            }
            proof {
                assert forall|i: int| 0 <= i < n && i != name as int implies #[trigger] self.nodes@[i] == before.nodes@[i] by {}
                assert(self.same_graph(base)) by {
                    assert forall|i: int| 0 <= i < n implies {
                        &&& (#[trigger] self.nodes@[i]).outgoing@ == base.nodes@[i].outgoing@
                        &&& self.nodes@[i].incoming@ == base.nodes@[i].incoming@
                        &&& self.nodes@[i].value == base.nodes@[i].value
                    } by {
                        assert(before.nodes@[i].outgoing@ == base.nodes@[i].outgoing@);
                    }
                }
                assert forall|i: int| 0 <= i < n implies #[trigger] self.nodes@[i].flag <= flag by {
                    assert(before.nodes@[i].flag <= flag);
                }
                assert forall|x: int| 0 <= x < n implies (#[trigger] self.nodes@[x].flag == flag
                    <==> (pos <= n2p[x] <= a_pos && reaches(g, x as usize, a))) by {
                    if x != name as int {
                        assert(before.nodes@[x].flag == flag
                            <==> (pos + 1 <= n2p[x] <= a_pos && reaches(g, x as usize, a)));
                        assert(p2n@[n2p[x] as int] == x);
                    }
                }
            }
        }
    }

    /// The nodes placed from `b_pos` to `a_pos` that carry `flag`, then the
    /// others, each group in order.
    fn partition_window(
        &self,
        p2n: &Vec<usize>,
        b_pos: usize,
        a_pos: usize,
        flag: u64,
        Ghost(pred): Ghost<spec_fn(usize) -> bool>,
    ) -> (r: Vec<usize>)
        requires
            b_pos <= a_pos < p2n@.len(),
            forall|q: int| b_pos <= q <= a_pos ==> #[trigger] p2n@[q] < self.nodes@.len()
                && (self.nodes@[p2n@[q] as int].flag == flag <==> pred(p2n@[q])),
        ensures
            r@ == p2n@.subrange(b_pos as int, a_pos + 1).filter(pred)
                + p2n@.subrange(b_pos as int, a_pos + 1).filter(negate(pred)),
    {
        let ghost w = p2n@.subrange(b_pos as int, a_pos + 1);
        let plen = p2n.len();
        let mut r: Vec<usize> = Vec::new();
        let mut pos = b_pos;
        while pos <= a_pos
            invariant
                b_pos <= pos <= a_pos + 1,
                a_pos < plen,
                plen == p2n@.len(),
                w == p2n@.subrange(b_pos as int, a_pos + 1),
                forall|q: int| b_pos <= q <= a_pos ==> #[trigger] p2n@[q] < self.nodes@.len()
                    && (self.nodes@[p2n@[q] as int].flag == flag <==> pred(p2n@[q])),
                r@ == w.take(pos - b_pos).filter(pred),
            decreases a_pos + 1 - pos,
        {
            let name = p2n[pos];
            proof {
                let k = pos - b_pos;
                reveal(Seq::filter);
                assert(w.take(k + 1).drop_last() =~= w.take(k));
                assert(w.take(k + 1).last() == name);
            }
            if self.nodes[name].flag == flag {
                r.push(name);
            }
            pos += 1;
        }
        proof {
            assert(w.take(pos - b_pos) =~= w);
        }
        let ghost first = r@;
        let mut pos = b_pos;
        while pos <= a_pos
            invariant
                b_pos <= pos <= a_pos + 1,
                a_pos < plen,
                plen == p2n@.len(),
                w == p2n@.subrange(b_pos as int, a_pos + 1),
                forall|q: int| b_pos <= q <= a_pos ==> #[trigger] p2n@[q] < self.nodes@.len()
                    && (self.nodes@[p2n@[q] as int].flag == flag <==> pred(p2n@[q])),
                first == w.filter(pred),
                r@ == first + w.take(pos - b_pos).filter(negate(pred)),
            decreases a_pos + 1 - pos,
        {
            let name = p2n[pos];
            proof {
                let k = pos - b_pos;
                reveal(Seq::filter);
                assert(w.take(k + 1).drop_last() =~= w.take(k));
                assert(w.take(k + 1).last() == name);
            }
            if self.nodes[name].flag != flag {
                r.push(name);
            }
            pos += 1;
        }
        proof {
            assert(w.take(pos - b_pos) =~= w);
        }
        r
    }

    /// Makes room in the held order for an arc from node `a` to node `b`.
    /// When `b` stands before `a`, the nodes from `b` to `a` that reach `a`
    /// move, in order, in front of the others; this is refused, leaving the
    /// order as it was, when `b` itself reaches `a`. A flag is drawn either way.
    #[verifier::spinoff_prover]
    #[verifier::rlimit(60)]
    pub fn reorder(&mut self, a: usize, b: usize) -> (r: bool)
        requires
            old(self).wf(),
            old(self).has_order(),
            old(self).flags_left(),
            a < old(self).len(),
            b < old(self).len(),
        ensures
            final(self).wf(),
            final(self).has_order(),
            final(self).simple() == old(self).simple(),
            final(self).flag_counter() == old(self).flag_counter() + 1,
            final(self).len() == old(self).len(),
            final(self).values() == old(self).values(),
            forall|v: u64| #[trigger] final(self).index_of(v) == old(self).index_of(v),
            forall|x: int, y: int| #[trigger] final(self).edge(x, y) == old(self).edge(x, y),
            final(self).successors() == old(self).successors(),
            old(self).position_of()[a as int] <= old(self).position_of()[b as int] ==> r
                && final(self).positions() == old(self).positions(),
            old(self).position_of()[a as int] > old(self).position_of()[b as int] ==> {
                let pa = old(self).position_of()[a as int] as int;
                let pb = old(self).position_of()[b as int] as int;
                let op = old(self).positions();
                let w = op.subrange(pb, pa + 1);
                let near = reaches_to(old(self).graph(), a);
                &&& r == !reaches(old(self).graph(), b, a)
                &&& !r ==> final(self).positions() == op
                &&& r ==> final(self).positions() == op.subrange(0, pb) + w.filter(near)
                    + w.filter(negate(near)) + op.subrange(pa + 1, op.len() as int)
            },
            r && a != b ==> final(self).position_of()[a as int] < final(self).position_of()[b as int],
    {
        let ghost old_self = *old(self);
        let ghost g = old_self.graph();
        let ghost n = old_self.nodes@.len();
        let our_flag = self.next_flag;
        self.next_flag = self.next_flag + 1;
        let mut taken: Option<(Vec<usize>, Vec<usize>)> = None;
        std::mem::swap(&mut taken, &mut self.sort);
        let (mut p2n, mut n2p) = taken.unwrap();
        let ghost op = p2n@;
        let ghost on = n2p@;
        let a_pos = n2p[a];
        let b_pos = n2p[b];
        proof {
            assert(self.same_graph(old_self));
            assert(on == old_self.position_of());
            assert(op == old_self.positions());
            assert forall|u: int, v: int| #[trigger] g(u, v) implies 0 <= u < n && 0 <= v < n && on[u] < on[v] by {
                assert(old_self.edge(u, v));
            }
        }
        if a_pos <= b_pos {
            self.sort = Some((p2n, n2p));
            proof {
                assert forall|x: int, y: int| #[trigger] self.edge(x, y) == old_self.edge(x, y) by {}
                assert forall|i: int| 0 <= i < n implies #[trigger] self.nodes@[i].flag < self.next_flag by {
                    assert(old_self.nodes@[i].flag < old_self.next_flag);
                }
                assert(self.wf());
                if a != b {
                    assert(on[a as int] != on[b as int]) by {
                        assert(op[on[a as int] as int] == a && op[on[b as int] as int] == b);
                    }
                }
            }
            return true;
        }
        proof {
            assert forall|i: int| 0 <= i < n implies #[trigger] self.nodes@[i].flag < our_flag by {
                assert(old_self.nodes@[i].flag < old_self.next_flag);
            }
        }
        self.flag_reaching(&p2n, a, a_pos, b_pos, our_flag, Ghost(old_self));
        let bn = p2n[b_pos];
        proof {
            assert(op[b_pos as int] == b);
            assert(self.nodes@[b as int].flag == our_flag <==> reaches(g, b, a));
        }
        if self.nodes[bn].flag == our_flag {
            self.sort = Some((p2n, n2p));
            proof {
                assert forall|x: int, y: int| #[trigger] self.edge(x, y) == old_self.edge(x, y) by {}
                assert(self.wf());
                self.lemma_simple_same(old_self);
            }
            return false;
        }
        let ghost near = reaches_to(g, a);
        proof {
            assert forall|q: int| b_pos <= q <= a_pos implies #[trigger] op[q] < self.nodes@.len()
                && (self.nodes@[op[q] as int].flag == our_flag <==> near(op[q])) by {
                assert(on[op[q] as int] == q);
            }
        }
        let new_names = self.partition_window(&p2n, b_pos, a_pos, our_flag, Ghost(near));
        let ghost nn = new_names@;
        proof {
            assert forall|u: int, v: int| #[trigger] g(u, v) && near(v as usize) implies near(u as usize) by {
                lemma_reaches_step(g, u as usize, v as usize, a);
            }
            let w = op.subrange(b_pos as int, a_pos + 1);
            assert(w.no_duplicates()) by {
                assert forall|i: int, j: int| 0 <= i < w.len() && 0 <= j < w.len() && i != j implies w[i] != w[j] by {
                    assert(on[op[b_pos + i] as int] == b_pos + i);
                    assert(on[op[b_pos + j] as int] == b_pos + j);
                }
            }
            lemma_filter(w, near);
            lemma_filter(w, negate(near));
            assert forall|k: int| 0 <= k < nn.len() implies #[trigger] nn[k] < n by {
                let x = nn[k];
                let f = w.filter(near);
                if k < f.len() {
                    assert(f[k] == x);
                    assert(f.contains(x));
                } else {
                    assert(w.filter(negate(near))[k - f.len()] == x);
                    assert(w.filter(negate(near)).contains(x));
                }
                let j = choose|j: int| 0 <= j < w.len() && w[j] == x;
                assert(op[b_pos + j] == x);
            }
            assert(nn.no_duplicates()) by {
                let f = w.filter(near);
                let u = w.filter(negate(near));
                assert forall|i: int, j: int| 0 <= i < nn.len() && 0 <= j < nn.len() && i != j implies nn[i] != nn[j] by {
                    if i < f.len() && j < f.len() {
                        assert(nn[i] == f[i] && nn[j] == f[j]);
                    } else if i >= f.len() && j >= f.len() {
                        assert(nn[i] == u[i - f.len()] && nn[j] == u[j - f.len()]);
                    } else if i < f.len() {
                        assert(f.contains(nn[i]));
                        assert(u.contains(nn[j]));
                    } else {
                        assert(f.contains(nn[j]));
                        assert(u.contains(nn[i]));
                    }
                }
            }
        }
        let mut i: usize = 0;
        while i < new_names.len()
            invariant
                n == n2p@.len(),
                op.len() == n,
                b_pos < a_pos < n,
                nn == new_names@,
                nn.len() == a_pos + 1 - b_pos,
                nn.no_duplicates(),
                i <= nn.len(),
                p2n@ == op.subrange(0, b_pos as int) + nn.take(i as int) + op.subrange(b_pos + i, n as int),
                forall|k: int| 0 <= k < i ==> #[trigger] n2p@[nn[k] as int] == b_pos + k,
                forall|x: int| 0 <= x < n && !nn.take(i as int).contains(x as usize) ==> #[trigger] n2p@[x] == on[x],
                forall|k: int| 0 <= k < nn.len() ==> #[trigger] nn[k] < n,
            decreases nn.len() - i,
        {
            let name = new_names[i];
            let ghost before_n2p = n2p@;
            p2n.set(b_pos + i, name);
            n2p.set(name, b_pos + i);
            i += 1;
            proof {
                assert(p2n@ =~= op.subrange(0, b_pos as int) + nn.take(i as int) + op.subrange(b_pos + i, n as int));
                assert forall|k: int| 0 <= k < i implies #[trigger] n2p@[nn[k] as int] == b_pos + k by {
                    if k < i - 1 {
                        assert(nn[k] != nn[i - 1]);
                    }
                }
                assert forall|x: int| 0 <= x < n && !nn.take(i as int).contains(x as usize) implies #[trigger] n2p@[x] == on[x] by {
                    assert(nn.take(i as int)[i - 1] == name);
                    assert(x != name as int);
                    if nn.take(i - 1).contains(x as usize) {
                        let k = choose|k: int| 0 <= k < i - 1 && #[trigger] nn.take(i - 1)[k] == x as usize;
                        assert(nn.take(i as int)[k] == x as usize);
                    }
                }
            }
        }
        proof {
            assert(nn.take(i as int) =~= nn);
            assert(p2n@ =~= op.subrange(0, b_pos as int) + nn + op.subrange(a_pos + 1, n as int));
            lemma_rearranged(g, n, op, on, b_pos as int, a_pos as int, near, nn, p2n@, n2p@);
        }
        let ghost np = p2n@;
        let ghost nq = n2p@;
        self.sort = Some((p2n, n2p));
        proof {
            assert forall|x: int, y: int| #[trigger] self.edge(x, y) == old_self.edge(x, y) by {}
            assert forall|x: int, y: int| #[trigger] self.edge(x, y) implies nq[x] < nq[y] by {
                assert(g(x, y));
            }
            assert(self.wf());
            self.lemma_simple_same(old_self);
            lemma_reaches_self(g, a);
            assert(near(a));
            assert(!near(b));
            assert(nq[a as int] < nq[b as int]);
        }
        true
    }

    /// Adds an arc from the node with value `a` to the node with value `b`.
    /// An unknown value leaves the graph as it is and is accepted; an arc
    /// from a node to itself is refused, and an arc already present is
    /// accepted with nothing changed. With an order held, the arc is
    /// refused when it would close a cycle, and otherwise the order is
    /// adjusted to it (see `reorder`).
    #[verifier::spinoff_prover]
    #[verifier::rlimit(40)]
    pub fn arc(&mut self, a: &u64, b: &u64) -> (r: bool)
        requires
            old(self).wf(),
            old(self).simple(),
            old(self).flags_left(),
        ensures
            final(self).wf(),
            final(self).simple(),
            final(self).has_order() == old(self).has_order(),
            final(self).sort_attempted() == old(self).sort_attempted(),
            final(self).len() == old(self).len(),
            final(self).values() == old(self).values(),
            forall|v: u64| #[trigger] final(self).index_of(v) == old(self).index_of(v),
            match (old(self).index_of(*a), old(self).index_of(*b)) {
                (Some(ia), Some(ib)) => {
                    &&& ia == ib ==> !r && *final(self) == *old(self)
                    &&& ia != ib && old(self).edge(ia as int, ib as int) ==> r && *final(self) == *old(self)
                    &&& ia != ib && !old(self).has_order() ==> r
                    &&& ia != ib && old(self).has_order() ==> r == !reaches(old(self).graph(), ib, ia)
                    &&& final(self).flag_counter() == if ia != ib && !old(self).edge(ia as int, ib as int)
                        && old(self).has_order() {
                        (old(self).flag_counter() + 1) as u64
                    } else {
                        old(self).flag_counter()
                    }
                    &&& forall|x: int, y: int| #[trigger] final(self).edge(x, y)
                        == (old(self).edge(x, y) || (r && x == ia && y == ib))
                    &&& final(self).successors() == if r && ia != ib && !old(self).edge(ia as int, ib as int) {
                        old(self).successors().update(ia as int, old(self).successors()[ia as int].push(ib))
                    } else {
                        old(self).successors()
                    }
                    &&& ia != ib && old(self).has_order() && !r ==> final(self).positions() == old(self).positions()
                    &&& ia != ib && old(self).has_order() && old(self).position_of()[ia as int]
                        < old(self).position_of()[ib as int] ==> final(self).positions() == old(self).positions()
                    &&& ia != ib && old(self).has_order() && old(self).position_of()[ia as int]
                        > old(self).position_of()[ib as int] && r ==> {
                        let pa = old(self).position_of()[ia as int] as int;
                        let pb = old(self).position_of()[ib as int] as int;
                        let op = old(self).positions();
                        let w = op.subrange(pb, pa + 1);
                        let near = reaches_to(old(self).graph(), ia);
                        final(self).positions() == op.subrange(0, pb) + w.filter(near) + w.filter(negate(near))
                            + op.subrange(pa + 1, op.len() as int)
                    }
                },
                _ => r && *final(self) == *old(self),
            },
    {
        let ghost old_self = *old(self);
        let la = self.lookup.get(a);
        let lb = self.lookup.get(b);
        let (ia, ib) = match (la, lb) {
            (Some(x), Some(y)) => (*x, *y),
            _ => {
                return true;
            },
        };
        if ia == ib {
            return false;
        }
        if has_index(&self.nodes[ia].outgoing, ib) {
            proof {
                assert(old_self.edge(ia as int, ib as int));
                if old_self.has_order() {
                    old_self.order_is_topological();
                    if reaches(old_self.graph(), ib, ia) {
                        lemma_reaches_rank(old_self.graph(), old_self.position_of(), ib, ia);
                    }
                }
            }
            return true;
        }
        proof {
            assert(!old_self.nodes@[ia as int].outgoing@.contains(ib));
            assert(!old_self.edge(ia as int, ib as int));
        }
        if self.sort.is_some() {
            proof {
                old_self.order_is_topological();
                if old_self.position_of()[ia as int] < old_self.position_of()[ib as int]
                    && reaches(old_self.graph(), ib, ia) {
                    lemma_reaches_rank(old_self.graph(), old_self.position_of(), ib, ia);
                }
            }
            let ok = self.reorder(ia, ib);
            if !ok {
                return false;
            }
            proof {
                assert(old_self.position_of()[ia as int] != old_self.position_of()[ib as int]) by {
                    assert(old_self.positions()[old_self.position_of()[ia as int] as int] == ia);
                    assert(old_self.positions()[old_self.position_of()[ib as int] as int] == ib);
                }
            }
        }
        let ghost mid = *self;
        let n_nodes = self.nodes.len();
        self.nodes[ia].outgoing.push(ib);
        self.nodes[ib].incoming.push(ia);
        proof {
            let n = self.nodes@.len();
            assert(n == n_nodes);
            assert forall|i: int| 0 <= i < n && i != ia as int && i != ib as int implies #[trigger] self.nodes@[i] == mid.nodes@[i] by {}
            assert forall|i: int| 0 <= i < n && i != ia as int implies #[trigger] self.nodes@[i].outgoing@ == mid.nodes@[i].outgoing@ by {}
            assert forall|i: int| 0 <= i < n && i != ib as int implies #[trigger] self.nodes@[i].incoming@ == mid.nodes@[i].incoming@ by {}
            assert(self.nodes@.len() == mid.nodes@.len());
            assert forall|x: int, y: int| #[trigger] self.edge(x, y) == (old_self.edge(x, y) || (x == ia && y == ib)) by {
                assert(mid.edge(x, y) == old_self.edge(x, y));
                if 0 <= x < n && 0 <= y < n {
                    if x == ia as int {
                        assert(self.nodes@[x].outgoing@ == mid.nodes@[x].outgoing@.push(ib));
                        vstd::seq_lib::lemma_seq_contains_after_push(mid.nodes@[x].outgoing@, ib, y as usize);
                        assert(self.nodes@[x].outgoing@.contains(y as usize) <==> (mid.nodes@[x].outgoing@.contains(y as usize) || y == ib as int));
                    } else {
                        assert(self.nodes@[x].outgoing@ == mid.nodes@[x].outgoing@);
                    }
                }
            }
            assert(!mid.nodes@[ia as int].outgoing@.contains(ib)) by {
                assert(!old_self.edge(ia as int, ib as int));
                assert(!mid.edge(ia as int, ib as int));
            }
            assert(!mid.nodes@[ib as int].incoming@.contains(ia));
            assert(self.simple()) by {
                assert forall|x: int| 0 <= x < n implies {
                    &&& (#[trigger] self.nodes@[x]).outgoing@.no_duplicates()
                    &&& self.nodes@[x].incoming@.no_duplicates()
                } by {
                    assert(mid.nodes@[x].outgoing@.no_duplicates());
                    assert(mid.nodes@[x].incoming@.no_duplicates());
                    if x == ia as int {
                        let o = self.nodes@[x].outgoing@;
                        assert forall|i: int, j: int| 0 <= i < o.len() && 0 <= j < o.len() && i != j implies o[i] != o[j] by {
                            if i == o.len() - 1 {
                                assert(mid.nodes@[x].outgoing@.contains(o[j]));
                            } else if j == o.len() - 1 {
                                assert(mid.nodes@[x].outgoing@.contains(o[i]));
                            }
                        }
                    }
                    if x == ib as int {
                        let o = self.nodes@[x].incoming@;
                        assert forall|i: int, j: int| 0 <= i < o.len() && 0 <= j < o.len() && i != j implies o[i] != o[j] by {
                            if i == o.len() - 1 {
                                assert(mid.nodes@[x].incoming@.contains(o[j]));
                            } else if j == o.len() - 1 {
                                assert(mid.nodes@[x].incoming@.contains(o[i]));
                            }
                        }
                    }
                }
            }
            assert forall|x: int, j: int| 0 <= x < n && 0 <= j < self.nodes@[x].outgoing@.len()
                implies #[trigger] self.nodes@[x].outgoing@[j] < n by {
                if x == ia as int && j < mid.nodes@[x].outgoing@.len() {
                    assert(self.nodes@[x].outgoing@[j] == mid.nodes@[x].outgoing@[j]);
                }
            }
            assert forall|x: int, j: int| 0 <= x < n && 0 <= j < self.nodes@[x].incoming@.len()
                implies #[trigger] self.nodes@[x].incoming@[j] < n by {
                if x == ib as int && j < mid.nodes@[x].incoming@.len() {
                    assert(self.nodes@[x].incoming@[j] == mid.nodes@[x].incoming@[j]);
                }
            }
            assert forall|x: int, y: int|
                #![trigger self.nodes@[x].outgoing@.contains(y as usize)]
                #![trigger self.nodes@[y].incoming@.contains(x as usize)]
                0 <= x < n && 0 <= y < n implies
                (self.nodes@[x].outgoing@.contains(y as usize) <==> self.nodes@[y].incoming@.contains(x as usize)) by {
                assert(mid.nodes@[x].outgoing@.contains(y as usize) <==> mid.nodes@[y].incoming@.contains(x as usize));
                if y == ib as int {
                    assert(self.nodes@[y].incoming@ == mid.nodes@[y].incoming@.push(ia));
                    vstd::seq_lib::lemma_seq_contains_after_push(mid.nodes@[y].incoming@, ia, x as usize);
                }
                if x == ia as int {
                    assert(self.nodes@[x].outgoing@ == mid.nodes@[x].outgoing@.push(ib));
                    vstd::seq_lib::lemma_seq_contains_after_push(mid.nodes@[x].outgoing@, ib, y as usize);
                }
            }
            assert(self.values() =~= old_self.values());
            assert(self.lookup == mid.lookup);
            assert forall|v: u64| #[trigger] self.index_of(v) == old_self.index_of(v) by {
                assert(mid.index_of(v) == old_self.index_of(v));
            }
            if mid.has_order() {
                let n2p = self.position_of();
                assert forall|x: int, y: int| #[trigger] self.edge(x, y) implies n2p[x] < n2p[y] by {
                    if !(x == ia as int && y == ib as int) {
                        assert(mid.edge(x, y));
                    }
                }
            }
            assert(self.wf());
        }
        true
    }

    /// The held order is a topological order of the graph: its positions
    /// and the position of each node are inverse permutations, and every
    /// arc goes forward.
    pub proof fn order_is_topological(&self)
        requires
            self.wf(),
            self.has_order(),
        ensures
            is_permutation_pair(self.positions(), self.position_of(), self.len()),
            forall|a: int, b: int| #[trigger] self.edge(a, b) ==> self.position_of()[a] < self.position_of()[b],
            acyclic(self.graph(), self.len()),
    {
        self.lemma_order_acyclic();
    }

    /// The held order, as values.
    pub fn order(&self) -> (r: Option<Vec<u64>>)
        requires
            self.wf(),
        ensures
            match r {
                Some(v) => self.spec_order() == Some(v@),
                None => self.spec_order() is None,
            },
    {
        match &self.sort {
            None => None,
            Some((sorting, _)) => {
                let mut out: Vec<u64> = Vec::new();
                let mut i: usize = 0;
                while i < sorting.len()
                    invariant
                        self.wf(),
                        self.sort matches Some((s, _)) && s@ == sorting@,
                        i <= sorting@.len(),
                        out@ == sorting@.take(i as int).map_values(|k: usize| self.values()[k as int]),
                    decreases sorting@.len() - i,
                {
                    let idx = sorting[i];
                    out.push(self.nodes[idx].value);
                    i += 1;
                    proof {
                        assert(out@ =~= sorting@.take(i as int).map_values(|k: usize| self.values()[k as int]));
                    }
                }
                proof {
                    assert(sorting@.take(i as int) =~= sorting@);
                }
                Some(out)
            },
        }
    }

    /// The held order, as values (a copy).
    pub fn order_clone(&self) -> (r: Option<Vec<u64>>)
        requires
            self.wf(),
        ensures
            match r {
                Some(v) => self.spec_order() == Some(v@),
                None => self.spec_order() is None,
            },
    {
        self.order()
    }

    /// How far `a` stands after `b` in the held order (0 when `a` comes
    /// first); `None` without an order or for an unknown value.
    pub fn distance(&self, a: &u64, b: &u64) -> (r: Option<usize>)
        requires
            self.wf(),
        ensures
            match (self.index_of(*a), self.index_of(*b)) {
                (Some(ia), Some(ib)) => if self.has_order() {
                    let pa = self.position_of()[ia as int];
                    let pb = self.position_of()[ib as int];
                    r == Some(if pa < pb { 0usize } else { (pa - pb) as usize })
                } else {
                    r is None
                },
                _ => r is None,
            },
    {
        let a_name = self.lookup.get(a);
        let b_name = self.lookup.get(b);
        match (a_name, b_name, &self.sort) {
            (Some(a_name), Some(b_name), Some((_, name_to_pos))) => {
                let pos_a = name_to_pos[*a_name];
                let pos_b = name_to_pos[*b_name];
                if pos_a < pos_b { Some(0) } else { Some(pos_a - pos_b) }
            },
            _ => None,
        }
    }
}

} // verus!
