//! Breadth-first order is by distance, so the point where branches meet again is
//! a meeting node nearest to the fork.
use vstd::prelude::*;
use crate::graph::adj_wf;
use crate::junction::{convergence, first_reached_by_all, reached_by_all};
use crate::search::{
    bfs, closed_upto, is_walk, lemma_bfs, lemma_distinct_bound, lemma_reach_trans, lemma_search_from,
    lemma_search_sound, lemma_walk_step, reachable, search_from, search_ok,
};

verus! {

/// Node `b` can be reached from node `a` in at most `k` steps along wires.
pub open spec fn within(adj: Seq<Seq<usize>>, a: usize, b: usize, k: nat) -> bool {
    exists|p: Seq<usize>| #[trigger] is_walk(adj, p) && p[0] == a && p.last() == b && p.len() <= k + 1
}

/// The least number of steps from `a` to `b`.
spec fn dist(adj: Seq<Seq<usize>>, a: usize, b: usize) -> nat {
    choose|k: nat| within(adj, a, b, k) && forall|m: nat| m < k ==> !#[trigger] within(adj, a, b, m)
}

proof fn lemma_least_exists(adj: Seq<Seq<usize>>, a: usize, b: usize, k: nat)
    requires
        within(adj, a, b, k),
    ensures
        exists|d: nat| within(adj, a, b, d) && forall|m: nat| m < d ==> !#[trigger] within(adj, a, b, m),
    decreases k,
{
    if exists|m: nat| m < k && #[trigger] within(adj, a, b, m) {
        let m = choose|m: nat| m < k && #[trigger] within(adj, a, b, m);
        lemma_least_exists(adj, a, b, m);
    } else {
        assert(forall|m: nat| m < k ==> !#[trigger] within(adj, a, b, m));
    }
}

proof fn lemma_dist(adj: Seq<Seq<usize>>, a: usize, b: usize)
    requires
        reachable(adj, a, b),
    ensures
        within(adj, a, b, dist(adj, a, b)),
        forall|k: nat| #[trigger] within(adj, a, b, k) ==> dist(adj, a, b) <= k,
{
    let p = choose|p: Seq<usize>| #[trigger] is_walk(adj, p) && p[0] == a && p.last() == b;
    assert(within(adj, a, b, (p.len() - 1) as nat));
    lemma_least_exists(adj, a, b, (p.len() - 1) as nat);
}

proof fn lemma_within_more(adj: Seq<Seq<usize>>, a: usize, b: usize, k: nat, m: nat)
    requires
        within(adj, a, b, k),
        k <= m,
    ensures
        within(adj, a, b, m),
{
    let p = choose|p: Seq<usize>| #[trigger] is_walk(adj, p) && p[0] == a && p.last() == b && p.len() <= k + 1;
}

proof fn lemma_within_reachable(adj: Seq<Seq<usize>>, a: usize, b: usize, k: nat)
    requires
        within(adj, a, b, k),
    ensures
        reachable(adj, a, b),
{
    let p = choose|p: Seq<usize>| #[trigger] is_walk(adj, p) && p[0] == a && p.last() == b && p.len() <= k + 1;
}

proof fn lemma_within_step(adj: Seq<Seq<usize>>, a: usize, u: usize, v: usize, k: nat)
    requires
        within(adj, a, u, k),
        u < adj.len(),
        adj_wf(adj),
        adj[u as int].contains(v),
    ensures
        within(adj, a, v, k + 1),
{
    let p = choose|p: Seq<usize>| #[trigger] is_walk(adj, p) && p[0] == a && p.last() == u && p.len() <= k + 1;
    let q = p.push(v);
    let i = choose|i: int| 0 <= i < adj[u as int].len() && adj[u as int][i] == v;
    assert(v < adj.len());
    assert(is_walk(adj, q)) by {
        assert forall|t: int| 0 <= t < q.len() - 1 implies adj[#[trigger] q[t] as int].contains(q[t + 1]) by {
            if t < p.len() - 1 {
                assert(q[t] == p[t] && q[t + 1] == p[t + 1]);
            } else {
                assert(q[t] == u && q[t + 1] == v);
            }
        }
    }
    assert(q[0] == a && q.last() == v);
}

/// One more step along a wire adds at most one to the distance.
proof fn lemma_dist_step(adj: Seq<Seq<usize>>, s: usize, u: usize, v: usize)
    requires
        adj_wf(adj),
        reachable(adj, s, u),
        u < adj.len(),
        adj[u as int].contains(v),
    ensures
        reachable(adj, s, v),
        dist(adj, s, v) <= dist(adj, s, u) + 1,
{
    lemma_dist(adj, s, u);
    lemma_within_step(adj, s, u, v, dist(adj, s, u));
    lemma_within_reachable(adj, s, v, dist(adj, s, u) + 1);
    lemma_dist(adj, s, v);
}

/// A node other than `s` has a predecessor one step nearer to `s`.
proof fn lemma_dist_pred(adj: Seq<Seq<usize>>, s: usize, v: usize) -> (u: usize)
    requires
        adj_wf(adj),
        reachable(adj, s, v),
        v != s,
    ensures
        u < adj.len(),
        adj[u as int].contains(v),
        reachable(adj, s, u),
        dist(adj, s, u) + 1 == dist(adj, s, v),
{
    lemma_dist(adj, s, v);
    let d = dist(adj, s, v);
    let p = choose|p: Seq<usize>| #[trigger] is_walk(adj, p) && p[0] == s && p.last() == v && p.len() <= d + 1;
    assert(p.len() >= 2);
    let q = p.drop_last();
    assert(is_walk(adj, q)) by {
        assert forall|t: int| 0 <= t < q.len() implies #[trigger] q[t] < adj.len() by {
            assert(q[t] == p[t]);
        }
        assert forall|t: int| 0 <= t < q.len() - 1 implies adj[#[trigger] q[t] as int].contains(q[t + 1]) by {
            assert(q[t] == p[t] && q[t + 1] == p[t + 1]);
        }
    }
    let u = q.last();
    assert(u == p[p.len() - 2]);
    assert(adj[p[p.len() - 2] as int].contains(p[p.len() - 1]));
    assert(within(adj, s, u, (d - 1) as nat));
    lemma_within_reachable(adj, s, u, (d - 1) as nat);
    lemma_dist(adj, s, u);
    lemma_dist_step(adj, s, u, v);
    u
}

proof fn lemma_dist_zero(adj: Seq<Seq<usize>>, s: usize, v: usize)
    requires
        reachable(adj, s, v),
    ensures
        dist(adj, s, v) == 0 <==> v == s,
{
    lemma_dist(adj, s, v);
    if v == s {
        let p = choose|p: Seq<usize>| #[trigger] is_walk(adj, p) && p[0] == s && p.last() == v;
        let q = seq![s];
        assert(q.len() == 1 && q[0] == s);
        assert(p[0] < adj.len());
        assert(is_walk(adj, q));
        assert(within(adj, s, s, 0));
    } else if dist(adj, s, v) == 0 {
        let p = choose|p: Seq<usize>| #[trigger] is_walk(adj, p) && p[0] == s && p.last() == v && p.len() <= 1;
    }
}

/// The search state from `s` lists nodes by distance from `s`, everything nearer than
/// the node being expanded has been listed before it, and nothing listed is more than
/// one step farther than it.
spec fn layered(adj: Seq<Seq<usize>>, s: usize, order: Seq<usize>, head: int) -> bool {
    &&& forall|a: int, b: int|
        0 <= a <= b < order.len() ==> dist(adj, s, #[trigger] order[a]) <= dist(adj, s, #[trigger] order[b])
    &&& (head < order.len() ==> dist(adj, s, order.last()) <= dist(adj, s, order[head]) + 1)
    &&& (head < order.len() ==> forall|x: usize|
        reachable(adj, s, x) && #[trigger] dist(adj, s, x) < dist(adj, s, order[head]) ==> exists|a: int|
            0 <= a < head && order[a] == x)
}

proof fn lemma_search_layered(adj: Seq<Seq<usize>>, s: usize, order: Seq<usize>, head: int, j: int)
    requires
        search_ok(adj, order),
        order.len() >= 1,
        order[0] == s,
        0 <= head <= order.len(),
        0 <= j,
        forall|k: int| 0 <= k < order.len() ==> reachable(adj, s, #[trigger] order[k]),
        closed_upto(adj, order, head, j),
        layered(adj, s, order, head),
    ensures
        ({
            let r = search_from(adj, order, head, j);
            forall|a: int, b: int|
                0 <= a <= b < r.len() ==> dist(adj, s, #[trigger] r[a]) <= dist(adj, s, #[trigger] r[b])
        }),
    decreases adj.len() - order.len(), order.len() - head, adj[order[head] as int].len() - j,
{
    if head >= order.len() {
        assert(search_from(adj, order, head, j) == order);
    } else {
        let u = order[head];
        if j >= adj[u as int].len() {
            assert(search_from(adj, order, head, j) == search_from(adj, order, head + 1, 0));
            assert(closed_upto(adj, order, head + 1, 0));
            if head + 1 < order.len() {
                let w = order[head + 1];
                assert(dist(adj, s, u) <= dist(adj, s, w));
                assert(dist(adj, s, order.last()) <= dist(adj, s, w) + 1) by {
                    assert(dist(adj, s, order[head]) <= dist(adj, s, order[head + 1]));
                }
                assert forall|x: usize|
                    reachable(adj, s, x) && #[trigger] dist(adj, s, x) < dist(adj, s, order[head + 1])
                    implies exists|a: int| 0 <= a < head + 1 && order[a] == x by {
                    assert(dist(adj, s, order[order.len() - 1]) <= dist(adj, s, u) + 1);
                    assert(dist(adj, s, order[head + 1]) <= dist(adj, s, order[order.len() - 1]));
                    if dist(adj, s, x) < dist(adj, s, u) {
                        let a = choose|a: int| 0 <= a < head && order[a] == x;
                    } else if x == s {
                        assert(order[0] == x);
                    } else {
                        let p = lemma_dist_pred(adj, s, x);
                        let a = choose|a: int| 0 <= a < head && order[a] == p;
                        let m = choose|m: int| 0 <= m < adj[p as int].len() && adj[p as int][m] == x;
                        assert(order.contains(adj[order[a] as int][m]));
                        let b = choose|b: int| 0 <= b < order.len() && order[b] == x;
                        if b >= head + 1 {
                            assert(dist(adj, s, order[head + 1]) <= dist(adj, s, order[b]));
                        }
                    }
                }
            }
            lemma_search_layered(adj, s, order, head + 1, 0);
        } else {
            let v = adj[u as int][j];
            assert(adj[u as int].contains(v));
            if order.contains(v) {
                assert(search_from(adj, order, head, j) == search_from(adj, order, head, j + 1));
                assert(closed_upto(adj, order, head, j + 1)) by {
                    assert forall|m: int| 0 <= m < j + 1 && m < adj[order[head] as int].len()
                        implies order.contains(#[trigger] adj[order[head] as int][m]) by {
                        if m < j {
                        }
                    }
                }
                lemma_search_layered(adj, s, order, head, j + 1);
            } else {
                lemma_distinct_bound(order.push(v), adj.len() as int);
                let o2 = order.push(v);
                assert(search_from(adj, order, head, j) == search_from(adj, o2, head, j + 1));
                assert(search_ok(adj, o2));
                assert(reachable(adj, s, u));
                lemma_dist_step(adj, s, u, v);
                // v is one step farther than u
                assert(v != s) by {
                    assert(order[0] == s);
                }
                assert(dist(adj, s, v) == dist(adj, s, u) + 1) by {
                    if dist(adj, s, v) < dist(adj, s, u) {
                        let a = choose|a: int| 0 <= a < head && order[a] == v;
                    } else if dist(adj, s, v) == dist(adj, s, u) {
                        let p = lemma_dist_pred(adj, s, v);
                        let a = choose|a: int| 0 <= a < head && order[a] == p;
                        let m = choose|m: int| 0 <= m < adj[p as int].len() && adj[p as int][m] == v;
                        assert(order.contains(adj[order[a] as int][m]));
                    }
                }
                assert forall|a: int, b: int|
                    0 <= a <= b < o2.len() implies dist(adj, s, #[trigger] o2[a]) <= dist(adj, s, #[trigger] o2[b]) by {
                    if b < order.len() {
                        assert(o2[a] == order[a] && o2[b] == order[b]);
                    } else {
                        assert(o2[b] == v);
                        if a < order.len() {
                            assert(o2[a] == order[a]);
                            assert(dist(adj, s, order[a]) <= dist(adj, s, order[order.len() - 1]));
                        }
                    }
                }
                assert(o2.last() == v);
                assert(o2[head] == u);
                assert forall|x: usize|
                    reachable(adj, s, x) && #[trigger] dist(adj, s, x) < dist(adj, s, o2[head])
                    implies exists|a: int| 0 <= a < head && o2[a] == x by {
                    let a = choose|a: int| 0 <= a < head && order[a] == x;
                    assert(o2[a] == order[a]);
                }
                assert(layered(adj, s, o2, head));
                assert forall|k: int| 0 <= k < o2.len() implies reachable(adj, s, #[trigger] o2[k]) by {
                    if k < order.len() {
                        assert(o2[k] == order[k]);
                    }
                }
                assert(closed_upto(adj, o2, head, j + 1)) by {
                    assert forall|k: int, m: int|
                        0 <= k < head && k < o2.len() && 0 <= m < adj[o2[k] as int].len()
                        implies o2.contains(#[trigger] adj[o2[k] as int][m]) by {
                        assert(o2[k] == order[k]);
                        assert(order.contains(adj[order[k] as int][m]));
                        let w = choose|w: int| 0 <= w < order.len() && order[w] == adj[order[k] as int][m];
                        assert(o2[w] == order[w]);
                    }
                    assert forall|m: int| 0 <= m < j + 1 && m < adj[o2[head] as int].len()
                        implies o2.contains(#[trigger] adj[o2[head] as int][m]) by {
                        if m < j {
                            assert(order.contains(adj[order[head] as int][m]));
                            let w = choose|w: int| 0 <= w < order.len() && order[w] == adj[order[head] as int][m];
                            assert(o2[w] == order[w]);
                        } else {
                            assert(o2[order.len() as int] == v);
                        }
                    }
                }
                assert(o2[0] == s);
                lemma_search_layered(adj, s, o2, head, j + 1);
            }
        }
    }
}

/// Breadth-first order lists the nodes by their distance from the start.
pub proof fn lemma_bfs_by_distance(adj: Seq<Seq<usize>>, s: usize, a: int, b: int, k: nat)
    requires
        adj_wf(adj),
        s < adj.len(),
        0 <= a <= b < bfs(adj, s).len(),
        within(adj, s, bfs(adj, s)[b], k),
    ensures
        within(adj, s, bfs(adj, s)[a], k),
{
    let o = seq![s];
    let r = bfs(adj, s);
    lemma_bfs(adj, s);
    assert(search_ok(adj, o));
    let p0 = seq![s];
    assert(is_walk(adj, p0));
    assert(reachable(adj, s, s));
    assert(forall|k: int| 0 <= k < o.len() ==> reachable(adj, s, #[trigger] o[k]));
    assert(layered(adj, s, o, 0)) by {
        assert forall|x: usize| reachable(adj, s, x) && #[trigger] dist(adj, s, x) < dist(adj, s, o[0])
            implies exists|a: int| 0 <= a < 0 && o[a] == x by {
            lemma_dist_zero(adj, s, s);
        }
    }
    lemma_search_layered(adj, s, o, 0, 0);
    assert(r.contains(r[a]) && r.contains(r[b]));
    assert(reachable(adj, s, r[a]));
    assert(reachable(adj, s, r[b]));
    lemma_dist(adj, s, r[a]);
    lemma_dist(adj, s, r[b]);
    assert(dist(adj, s, r[a]) <= dist(adj, s, r[b]));
    lemma_within_more(adj, s, r[a], dist(adj, s, r[a]), k);
}

proof fn lemma_first_reached_upto(adj: Seq<Seq<usize>>, starts: Seq<usize>, r: Seq<usize>, k: int, jv: int)
    requires
        0 <= k <= jv < r.len(),
        reached_by_all(adj, starts, r[jv]),
    ensures
        first_reached_by_all(adj, starts, r.subrange(k, r.len() as int)) matches Some(c) && exists|i: int|
            k <= i <= jv && r[i] == c,
    decreases jv - k,
{
    let tail = r.subrange(k, r.len() as int);
    assert(tail[0] == r[k]);
    if !reached_by_all(adj, starts, r[k]) {
        assert(tail.drop_first() =~= r.subrange(k + 1, r.len() as int));
        lemma_first_reached_upto(adj, starts, r, k + 1, jv);
    }
}

/// The point where the branches leaving a fork meet again is a nearest meeting node:
/// whenever some node other than the fork, reached by every branch, lies within `k`
/// steps of the fork, the branches do meet, and the meeting point lies within `k`
/// steps of the fork too.
pub proof fn lemma_convergence_nearest(adj: Seq<Seq<usize>>, fork: usize, starts: Seq<usize>, v: usize, k: nat)
    requires
        adj_wf(adj),
        fork < adj.len(),
        starts.len() > 0,
        v != fork,
        reached_by_all(adj, starts, v),
        within(adj, fork, v, k),
    ensures
        convergence(adj, fork, starts) matches Some(c) && within(adj, fork, c, k),
{
    let r = bfs(adj, fork);
    lemma_bfs(adj, fork);
    lemma_within_reachable(adj, fork, v, k);
    assert(r.contains(v));
    let jv = choose|jv: int| 0 <= jv < r.len() && r[jv] == v;
    assert(jv >= 1);
    lemma_first_reached_upto(adj, starts, r, 1, jv);
    assert(r.drop_first() =~= r.subrange(1, r.len() as int));
    let c = convergence(adj, fork, starts)->Some_0;
    let i = choose|i: int| 1 <= i <= jv && r[i] == c;
    lemma_bfs_by_distance(adj, fork, i, jv, k);
}

} // verus!
