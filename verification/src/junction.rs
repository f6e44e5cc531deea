//! Where parallel branches meet again.
use vstd::prelude::*;
use crate::graph::adj_wf;
use crate::search::{bfs, breadth_first, lemma_bfs, reachable, rows, search_ok};

verus! {

/// Node `v` can be reached from every one of the branch starts.
pub open spec fn reached_by_all(adj: Seq<Seq<usize>>, starts: Seq<usize>, v: usize) -> bool {
    forall|i: int| 0 <= i < starts.len() ==> reachable(adj, #[trigger] starts[i], v)
}

/// The first of the candidates that every branch start reaches.
pub open spec fn first_reached_by_all(adj: Seq<Seq<usize>>, starts: Seq<usize>, cands: Seq<usize>) -> Option<usize>
    decreases cands.len(),
{
    if cands.len() == 0 {
        None
    } else if reached_by_all(adj, starts, cands[0]) {
        Some(cands[0])
    } else {
        first_reached_by_all(adj, starts, cands.drop_first())
    }
}

/// Where the branches that leave `fork` through `starts` meet again: of the nodes that
/// `fork` reaches, other than `fork` itself, the first in breadth-first order from `fork`
/// that every branch reaches. There is none without branches.
pub open spec fn convergence(adj: Seq<Seq<usize>>, fork: usize, starts: Seq<usize>) -> Option<usize> {
    if starts.len() == 0 {
        None
    } else {
        first_reached_by_all(adj, starts, bfs(adj, fork).drop_first())
    }
}

/// A meeting point found is a node of the graph, reached from `fork` and from every
/// branch, and is not `fork` itself.
pub proof fn lemma_convergence(adj: Seq<Seq<usize>>, fork: usize, starts: Seq<usize>)
    requires
        adj_wf(adj),
        fork < adj.len(),
    ensures
        convergence(adj, fork, starts) matches Some(c) ==> {
            &&& c < adj.len()
            &&& c != fork
            &&& reachable(adj, fork, c)
            &&& reached_by_all(adj, starts, c)
        },
{
    lemma_bfs(adj, fork);
    if starts.len() > 0 {
        lemma_first_reached(adj, starts, bfs(adj, fork), 1);
        assert(bfs(adj, fork).drop_first() =~= bfs(adj, fork).subrange(1, bfs(adj, fork).len() as int));
    }
}

proof fn lemma_first_reached(adj: Seq<Seq<usize>>, starts: Seq<usize>, order: Seq<usize>, k: int)
    requires
        1 <= k <= order.len(),
        order.no_duplicates(),
    ensures
        first_reached_by_all(adj, starts, order.subrange(k, order.len() as int)) matches Some(c) ==> {
            &&& order.contains(c)
            &&& c != order[0]
            &&& reached_by_all(adj, starts, c)
        },
    decreases order.len() - k,
{
    let tail = order.subrange(k, order.len() as int);
    if k < order.len() {
        assert(tail.drop_first() =~= order.subrange(k + 1, order.len() as int));
        lemma_first_reached(adj, starts, order, k + 1);
        assert(tail[0] == order[k]);
    }
}

/// Where the branches leaving `fork` through `branches` meet again, if anywhere.
pub fn find_convergence(adj: &Vec<Vec<usize>>, fork: usize, branches: &Vec<usize>) -> (res: Option<usize>)
    requires
        adj_wf(rows(adj@)),
        fork < adj@.len(),
        forall|i: int| 0 <= i < branches@.len() ==> #[trigger] branches@[i] < adj@.len(),
    ensures
        res == convergence(rows(adj@), fork, branches@),
{
    let ghost a = rows(adj@);
    if branches.len() == 0 {
        return None;
    }
    let n = adj.len();
    let mut common: Vec<bool> = vec![true; n];
    let mut b: usize = 0;
    while b < branches.len()
        invariant
            a == rows(adj@),
            adj_wf(a),
            n == a.len(),
            b <= branches@.len(),
            forall|i: int| 0 <= i < branches@.len() ==> #[trigger] branches@[i] < adj@.len(),
            common@.len() == n,
            forall|v: int| 0 <= v < n ==> #[trigger] common@[v] == reached_by_all(
                a,
                branches@.subrange(0, b as int),
                v as usize,
            ),
        decreases branches@.len() - b,
    {
        let start = branches[b];
        let (_, seen) = breadth_first(adj, start);
        proof {
            lemma_bfs(a, start);
        }
        let mut v: usize = 0;
        while v < n
            invariant
                a == rows(adj@),
                n == a.len(),
                b < branches@.len(),
                start == branches@[b as int],
                v <= n,
                common@.len() == n,
                seen@.len() == n,
                forall|w: int| 0 <= w < n ==> #[trigger] seen@[w] == bfs(a, start).contains(w as usize),
                forall|w: usize| #[trigger] bfs(a, start).contains(w) <==> reachable(a, start, w),
                forall|w: int| 0 <= w < v ==> #[trigger] common@[w] == reached_by_all(
                    a,
                    branches@.subrange(0, b + 1),
                    w as usize,
                ),
                forall|w: int| v <= w < n ==> #[trigger] common@[w] == reached_by_all(
                    a,
                    branches@.subrange(0, b as int),
                    w as usize,
                ),
            decreases n - v,
        {
            let c = common[v] && seen[v];
            proof {
                let s0 = branches@.subrange(0, b as int);
                let s1 = branches@.subrange(0, b + 1);
                assert(s1 =~= s0.push(start));
                assert(seen@[v as int] == reachable(a, start, v));
                if reached_by_all(a, s1, v) {
                    assert forall|i: int| 0 <= i < s0.len() implies reachable(a, #[trigger] s0[i], v) by {
                        assert(s1[i] == s0[i]);
                    }
                    assert(s1[b as int] == start);
                }
                if reached_by_all(a, s0, v) && reachable(a, start, v) {
                    assert forall|i: int| 0 <= i < s1.len() implies reachable(a, #[trigger] s1[i], v) by {
                        if i < b {
                            assert(s1[i] == s0[i]);
                        }
                    }
                }
            }
            common.set(v, c);
            v = v + 1;
        }
        b = b + 1;
    }
    assert(branches@.subrange(0, branches@.len() as int) =~= branches@);
    let (order, _) = breadth_first(adj, fork);
    proof {
        lemma_bfs(a, fork);
    }
    let mut k: usize = 1;
    assert(order@.drop_first() =~= order@.subrange(1, order@.len() as int));
    while k < order.len()
        invariant
            a == rows(adj@),
            n == a.len(),
            search_ok(a, order@),
            order@ == bfs(a, fork),
            1 <= k <= order@.len(),
            common@.len() == n,
            forall|v: int| 0 <= v < n ==> #[trigger] common@[v] == reached_by_all(a, branches@, v as usize),
            convergence(a, fork, branches@) == first_reached_by_all(
                a,
                branches@,
                order@.subrange(k as int, order@.len() as int),
            ),
        decreases order@.len() - k,
    {
        let v = order[k];
        let ghost tail = order@.subrange(k as int, order@.len() as int);
        assert(tail[0] == v);
        if common[v] {
            return Some(v);
        }
        assert(tail.drop_first() =~= order@.subrange(k + 1, order@.len() as int));
        k = k + 1;
    }
    None
}

} // verus!
