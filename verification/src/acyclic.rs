//! On a graph without loops the walk from the pump always ends, so a model is
//! built whenever there is a pump.
use vstd::prelude::*;
use crate::builder::{first_pump, main_line, model_of};
use crate::graph::{adj_wf, PipeGraph};
use crate::junction::{convergence, lemma_convergence};
use crate::search::{bfs, is_walk, lemma_bfs, lemma_distinct_bound, lemma_reach_trans, reachable};
use crate::termination::{ends, is_route, lemma_failing_route, outcome, step_to};
use crate::walk::{chain, Net};

verus! {

/// No wire leads from a node to a node from which it can be reached again.
pub open spec fn acyclic(adj: Seq<Seq<usize>>) -> bool {
    forall|u: usize, k: int|
        0 <= u < adj.len() && 0 <= k < adj[u as int].len() ==> !reachable(adj, #[trigger] adj[u as int][k], u)
}

proof fn lemma_first_step(adj: Seq<Seq<usize>>, a: usize, b: usize) -> (w: usize)
    requires
        reachable(adj, a, b),
        a != b,
    ensures
        a < adj.len(),
        adj[a as int].contains(w),
        reachable(adj, w, b),
{
    let p = choose|p: Seq<usize>| #[trigger] is_walk(adj, p) && p[0] == a && p.last() == b;
    assert(p.len() > 1);
    assert(adj[p[0] as int].contains(p[1]));
    let q = p.drop_first();
    assert(is_walk(adj, q)) by {
        assert forall|k: int| 0 <= k < q.len() implies #[trigger] q[k] < adj.len() by {
            assert(q[k] == p[k + 1]);
        }
        assert forall|k: int| 0 <= k < q.len() - 1 implies adj[#[trigger] q[k] as int].contains(q[k + 1]) by {
            assert(q[k] == p[k + 1] && q[k + 1] == p[k + 2]);
        }
    }
    assert(q[0] == p[1] && q.last() == b);
    p[1]
}

proof fn lemma_no_return(adj: Seq<Seq<usize>>, a: usize, b: usize)
    requires
        acyclic(adj),
        reachable(adj, a, b),
        a != b,
    ensures
        !reachable(adj, b, a),
{
    if reachable(adj, b, a) {
        let w = lemma_first_step(adj, a, b);
        lemma_reach_trans(adj, w, b, a);
        let k = choose|k: int| 0 <= k < adj[a as int].len() && adj[a as int][k] == w;
        assert(!reachable(adj, adj[a as int][k], a));
    }
}

/// The number of nodes reachable from `v`.
spec fn reach_count(adj: Seq<Seq<usize>>, v: usize) -> int {
    bfs(adj, v).len() as int
}

proof fn lemma_reach_count_decreases(adj: Seq<Seq<usize>>, a: usize, b: usize)
    requires
        adj_wf(adj),
        acyclic(adj),
        a < adj.len(),
        b < adj.len(),
        reachable(adj, a, b),
        a != b,
    ensures
        1 <= reach_count(adj, b) < reach_count(adj, a) <= adj.len(),
{
    lemma_bfs(adj, a);
    lemma_bfs(adj, b);
    lemma_no_return(adj, a, b);
    let sa = bfs(adj, a);
    let sb = bfs(adj, b);
    sa.unique_seq_to_set();
    sb.unique_seq_to_set();
    lemma_distinct_bound(sa, adj.len() as int);
    let big = sa.to_set().remove(a);
    assert(sa.to_set().contains(a)) by {
        assert(sa.contains(a));
    }
    assert(sb.to_set().subset_of(big)) by {
        assert forall|x: usize| sb.to_set().contains(x) implies big.contains(x) by {
            assert(sb.contains(x));
            assert(reachable(adj, b, x));
            lemma_reach_trans(adj, a, b, x);
            assert(sa.contains(x));
            if x == a {
                assert(reachable(adj, b, a));
            }
        }
    }
    vstd::set_lib::lemma_len_subset(sb.to_set(), big);
}

/// Along a route on a graph without loops, each step reaches fewer nodes.
proof fn lemma_step_shrinks(net: Net, curr: usize, end: Option<usize>, next: usize, next_end: Option<usize>)
    requires
        net.wf(),
        acyclic(net.adj),
        net.valid_state(curr, end),
        net.valid_state(next, next_end),
        step_to(net, curr, end, next, next_end),
    ensures
        1 <= reach_count(net.adj, next) < reach_count(net.adj, curr) <= net.adj.len(),
{
    let adj = net.adj;
    let succ = adj[curr as int];
    lemma_convergence(adj, curr, succ);
    if succ.contains(next) {
        let k = choose|k: int| 0 <= k < succ.len() && succ[k] == next;
        let p = seq![curr, next];
        assert(is_walk(adj, p)) by {
            assert(adj[p[0] as int].contains(p[1]));
        }
        assert(reachable(adj, curr, next));
        if next == curr {
            let q = seq![curr];
            assert(is_walk(adj, q));
            assert(reachable(adj, adj[curr as int][k], curr));
        }
        lemma_reach_count_decreases(adj, curr, next);
    } else {
        assert(convergence(adj, curr, succ) == Some(next));
        lemma_reach_count_decreases(adj, curr, next);
    }
}

proof fn lemma_route_shrinks(net: Net, p: Seq<(usize, Option<usize>)>, k: int)
    requires
        net.wf(),
        acyclic(net.adj),
        is_route(net, p),
        0 <= k < p.len(),
    ensures
        1 <= reach_count(net.adj, p[k].0),
        reach_count(net.adj, p[k].0) + k <= reach_count(net.adj, p[0].0) <= net.adj.len(),
    decreases k,
{
    if k == 0 {
        lemma_bfs(net.adj, p[0].0);
        lemma_distinct_bound(bfs(net.adj, p[0].0), net.adj.len() as int);
    } else {
        lemma_route_shrinks(net, p, k - 1);
        assert(step_to(net, p[k - 1].0, p[k - 1].1, p[k].0, p[k].1));
        lemma_step_shrinks(net, p[k - 1].0, p[k - 1].1, p[k].0, p[k].1);
    }
}

/// On a graph without loops, the walk from any valid position ends.
pub proof fn lemma_acyclic_ends(net: Net, curr: usize, end: Option<usize>)
    requires
        net.wf(),
        acyclic(net.adj),
        net.valid_state(curr, end),
    ensures
        ends(net, curr, end),
{
    let f = net.adj.len() as nat;
    if chain(net, curr, end, f) is None {
        let p = lemma_failing_route(net, curr, end, f);
        lemma_route_shrinks(net, p, f as int);
        assert(false);
    }
}

/// A graph without loops that has a pump always gives a model.
pub proof fn lemma_acyclic_model(g: PipeGraph)
    requires
        g.well_formed(),
        acyclic(g.adjacency()),
        first_pump(g.nodes@) is Some,
    ensures
        model_of(g) is Ok,
{
    let net = g.net();
    crate::graph::lemma_adjacency_len(g);
    let p = first_pump(g.nodes@)->Some_0;
    crate::shape::lemma_first_pump(g.nodes@, 0);
    assert(g.nodes@.len() == g.nodes.len());
    assert((p as usize) as int == p);
    if net.adj[p].len() > 0 {
        let start = net.adj[p][0];
        assert(start < net.adj.len());
        lemma_acyclic_ends(net, start, None);
        assert(outcome(net, start, None) is Some);
    }
    assert(main_line(net, p as usize) is Some);
}

} // verus!
