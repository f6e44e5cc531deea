//! When the walk from a node ends, and how many steps it may need: a walk that
//! ends at all ends within as many steps as there are walk positions.
use vstd::prelude::*;
use crate::junction::{convergence, lemma_convergence};
use crate::model::SpecComponent;
use crate::walk::{branches, chain, Net};

verus! {

/// The walk from `curr` up to `end` ends.
pub open spec fn ends(net: Net, curr: usize, end: Option<usize>) -> bool {
    exists|f: nat| #[trigger] chain(net, curr, end, f) is Some
}

/// The chain the walk from `curr` up to `end` builds, if the walk ends.
pub open spec fn outcome(net: Net, curr: usize, end: Option<usize>) -> Option<Seq<SpecComponent>> {
    if ends(net, curr, end) {
        chain(net, curr, end, choose|f: nat| #[trigger] chain(net, curr, end, f) is Some)
    } else {
        None
    }
}

/// The number of walk positions: a node, and the node to stop at or none.
pub open spec fn position_count(net: Net) -> nat {
    net.adj.len() * (net.adj.len() + 1)
}

/// From position (`curr`, `end`) the walk goes on at position (`next`, `next_end`):
/// to the only successor, into a branch of a fork, or past the meeting point.
pub open spec fn step_to(net: Net, curr: usize, end: Option<usize>, next: usize, next_end: Option<usize>) -> bool {
    let succ = net.adj[curr as int];
    let conv = convergence(net.adj, curr, succ);
    &&& end != Some(curr)
    &&& {
        ||| succ.len() == 1 && next == succ[0] && next_end == end
        ||| succ.len() >= 2 && succ.contains(next) && next_end == conv
        ||| succ.len() >= 2 && conv == Some(next) && next_end == end
    }
}

proof fn lemma_chain_more_fuel(net: Net, curr: usize, end: Option<usize>, f: nat)
    requires
        chain(net, curr, end, f) is Some,
    ensures
        chain(net, curr, end, f + 1) == chain(net, curr, end, f),
    decreases f, 0nat,
{
    if f > 0 && end != Some(curr) {
        let succ = net.adj[curr as int];
        if succ.len() == 1 {
            lemma_chain_more_fuel(net, succ[0], end, (f - 1) as nat);
        } else if succ.len() >= 2 {
            let conv = convergence(net.adj, curr, succ);
            lemma_branches_more_fuel(net, succ, conv, (f - 1) as nat);
            if let Some(c) = conv {
                lemma_chain_more_fuel(net, c, end, (f - 1) as nat);
            }
        }
    }
}

proof fn lemma_branches_more_fuel(net: Net, starts: Seq<usize>, conv: Option<usize>, f: nat)
    requires
        branches(net, starts, conv, f) is Some,
    ensures
        branches(net, starts, conv, f + 1) == branches(net, starts, conv, f),
    decreases f, starts.len() + 1,
{
    if starts.len() > 0 {
        lemma_branches_more_fuel(net, starts.drop_last(), conv, f);
        lemma_chain_more_fuel(net, starts.last(), conv, f);
    }
}

/// More steps than a walk needs do not change what it builds.
pub proof fn lemma_chain_fuel_mono(net: Net, curr: usize, end: Option<usize>, f1: nat, f2: nat)
    requires
        chain(net, curr, end, f1) is Some,
        f1 <= f2,
    ensures
        chain(net, curr, end, f2) == chain(net, curr, end, f1),
    decreases f2 - f1,
{
    if f1 < f2 {
        lemma_chain_more_fuel(net, curr, end, f1);
        lemma_chain_fuel_mono(net, curr, end, f1 + 1, f2);
    }
}

/// A walk that ends builds the same chain whatever room it is given.
pub proof fn lemma_chain_unique(net: Net, curr: usize, end: Option<usize>, f1: nat, f2: nat)
    requires
        chain(net, curr, end, f1) is Some,
        chain(net, curr, end, f2) is Some,
    ensures
        chain(net, curr, end, f1) == chain(net, curr, end, f2),
{
    if f1 <= f2 {
        lemma_chain_fuel_mono(net, curr, end, f1, f2);
    } else {
        lemma_chain_fuel_mono(net, curr, end, f2, f1);
    }
}

proof fn lemma_branches_none_member(net: Net, starts: Seq<usize>, conv: Option<usize>, f: nat)
    requires
        branches(net, starts, conv, f) is None,
    ensures
        exists|i: int| 0 <= i < starts.len() && #[trigger] chain(net, starts[i], conv, f) is None,
    decreases starts.len(),
{
    if starts.len() > 0 {
        let last = starts.len() - 1;
        if chain(net, starts.last(), conv, f) is None {
            assert(chain(net, starts[last], conv, f) is None);
        } else {
            lemma_branches_none_member(net, starts.drop_last(), conv, f);
            let i = choose|i: int| 0 <= i < starts.drop_last().len() && #[trigger] chain(net, starts.drop_last()[i], conv, f) is None;
            assert(starts.drop_last()[i] == starts[i]);
        }
    }
}

proof fn lemma_member_none_branches(net: Net, starts: Seq<usize>, conv: Option<usize>, f: nat, i: int)
    requires
        0 <= i < starts.len(),
        chain(net, starts[i], conv, f) is None,
    ensures
        branches(net, starts, conv, f) is None,
    decreases starts.len(),
{
    if i < starts.len() - 1 {
        assert(starts.drop_last()[i] == starts[i]);
        lemma_member_none_branches(net, starts.drop_last(), conv, f, i);
    }
}

/// A walk that does not end within `f` steps goes on at a position from which the
/// walk does not end within `f - 1` steps.
proof fn lemma_failing_step(net: Net, curr: usize, end: Option<usize>, f: nat) -> (next: (usize, Option<usize>))
    requires
        f > 0,
        chain(net, curr, end, f) is None,
    ensures
        step_to(net, curr, end, next.0, next.1),
        chain(net, next.0, next.1, (f - 1) as nat) is None,
{
    let succ = net.adj[curr as int];
    let conv = convergence(net.adj, curr, succ);
    if succ.len() == 1 {
        (succ[0], end)
    } else if branches(net, succ, conv, (f - 1) as nat) is None {
        lemma_branches_none_member(net, succ, conv, (f - 1) as nat);
        let i = choose|i: int| 0 <= i < succ.len() && #[trigger] chain(net, succ[i], conv, (f - 1) as nat) is None;
        assert(succ.contains(succ[i]));
        (succ[i], conv)
    } else {
        (conv->Some_0, end)
    }
}

/// A position from which the walk goes on to one that does not end within `f - 1`
/// steps does not end within `f` steps.
proof fn lemma_step_fails(net: Net, curr: usize, end: Option<usize>, next: usize, next_end: Option<usize>, f: nat)
    requires
        f > 0,
        step_to(net, curr, end, next, next_end),
        chain(net, next, next_end, (f - 1) as nat) is None,
    ensures
        chain(net, curr, end, f) is None,
{
    let succ = net.adj[curr as int];
    let conv = convergence(net.adj, curr, succ);
    if succ.len() >= 2 && succ.contains(next) && next_end == conv {
        let i = choose|i: int| 0 <= i < succ.len() && succ[i] == next;
        lemma_member_none_branches(net, succ, conv, (f - 1) as nat, i);
    }
}

/// Steps keep the walk at valid positions.
proof fn lemma_step_valid(net: Net, curr: usize, end: Option<usize>, next: usize, next_end: Option<usize>)
    requires
        net.wf(),
        net.valid_state(curr, end),
        step_to(net, curr, end, next, next_end),
    ensures
        net.valid_state(next, next_end),
{
    let succ = net.adj[curr as int];
    lemma_convergence(net.adj, curr, succ);
    if succ.contains(next) {
        let i = choose|i: int| 0 <= i < succ.len() && succ[i] == next;
        assert(net.adj[curr as int][i] < net.adj.len());
    }
    if succ.len() >= 1 {
        assert(net.adj[curr as int][0] < net.adj.len());
    }
}

/// Walk positions visited one after the other.
pub open spec fn is_route(net: Net, p: Seq<(usize, Option<usize>)>) -> bool {
    &&& forall|k: int| 0 <= k < p.len() ==> net.valid_state(#[trigger] p[k].0, p[k].1)
    &&& forall|k: int| 0 <= k < p.len() - 1 ==> step_to(net, #[trigger] p[k].0, p[k].1, p[k + 1].0, p[k + 1].1)
}

/// A walk that does not end within `f` steps follows a route of `f + 1` positions.
pub proof fn lemma_failing_route(net: Net, curr: usize, end: Option<usize>, f: nat) -> (p: Seq<(usize, Option<usize>)>)
    requires
        net.wf(),
        net.valid_state(curr, end),
        chain(net, curr, end, f) is None,
    ensures
        p.len() == f + 1,
        p[0] == (curr, end),
        is_route(net, p),
    decreases f,
{
    if f == 0 {
        seq![(curr, end)]
    } else {
        let next = lemma_failing_step(net, curr, end, f);
        lemma_step_valid(net, curr, end, next.0, next.1);
        let rest = lemma_failing_route(net, next.0, next.1, (f - 1) as nat);
        let p = seq![(curr, end)] + rest;
        assert forall|k: int| 0 <= k < p.len() implies net.valid_state(#[trigger] p[k].0, p[k].1) by {
            if k > 0 {
                assert(p[k] == rest[k - 1]);
            }
        }
        assert forall|k: int| 0 <= k < p.len() - 1 implies step_to(net, #[trigger] p[k].0, p[k].1, p[k + 1].0, p[k + 1].1) by {
            if k > 0 {
                assert(p[k] == rest[k - 1]);
                assert(p[k + 1] == rest[k]);
            } else {
                assert(p[1] == rest[0]);
            }
        }
        p
    }
}

/// A route that comes back to a position it has been at never ends, from any of
/// its positions before the return.
proof fn lemma_route_loops(net: Net, p: Seq<(usize, Option<usize>)>, i: int, j: int, k: int, f: nat)
    requires
        is_route(net, p),
        0 <= i < j < p.len(),
        p[i] == p[j],
        0 <= k < j,
    ensures
        chain(net, p[k].0, p[k].1, f) is None,
    decreases f,
{
    if f > 0 {
        assert(step_to(net, p[k].0, p[k].1, p[k + 1].0, p[k + 1].1));
        if k + 1 < j {
            lemma_route_loops(net, p, i, j, k + 1, (f - 1) as nat);
        } else {
            lemma_route_loops(net, p, i, j, i, (f - 1) as nat);
        }
        lemma_step_fails(net, p[k].0, p[k].1, p[k + 1].0, p[k + 1].1, f);
    }
}

/// The number of a walk position, below `position_count`.
spec fn position_number(n: int, s: (usize, Option<usize>)) -> int {
    s.0 * (n + 1) + match s.1 {
        Some(e) => e as int,
        None => n,
    }
}

proof fn lemma_position_number(n: int, a: int, x: int, b: int, y: int)
    by (nonlinear_arith)
    requires
        0 <= a < n,
        0 <= b < n,
        0 <= x <= n,
        0 <= y <= n,
    ensures
        0 <= a * (n + 1) + x < n * (n + 1),
        a * (n + 1) + x == b * (n + 1) + y ==> a == b && x == y,
{
    if a < b {
        assert(a * (n + 1) + x < b * (n + 1) + y) by {
            assert((b - a) * (n + 1) >= n + 1);
        }
    }
    if b < a {
        assert(b * (n + 1) + y < a * (n + 1) + x) by {
            assert((a - b) * (n + 1) >= n + 1);
        }
    }
}

/// A route longer than the number of walk positions comes back to a position.
proof fn lemma_route_repeats(net: Net, p: Seq<(usize, Option<usize>)>) -> (ij: (int, int))
    requires
        is_route(net, p),
        p.len() > position_count(net),
    ensures
        0 <= ij.0 < ij.1 < p.len(),
        p[ij.0] == p[ij.1],
{
    let n = net.adj.len() as int;
    let t = p.map_values(|s: (usize, Option<usize>)| position_number(n, s));
    assert forall|k: int| 0 <= k < t.len() implies 0 <= #[trigger] t[k] < n * (n + 1) by {
        let s = p[k];
        assert(net.valid_state(s.0, s.1));
        lemma_position_number(n, s.0 as int, position_number(n, s) - s.0 * (n + 1), s.0 as int, position_number(n, s) - s.0 * (n + 1));
    }
    if t.no_duplicates() {
        lemma_distinct_ints_bound(t, n * (n + 1));
        assert(false);
        (0, 0)
    } else {
        let (a, b) = choose|a: int, b: int| 0 <= a < t.len() && 0 <= b < t.len() && a != b && t[a] == t[b];
        let sa = p[a];
        let sb = p[b];
        assert(net.valid_state(sa.0, sa.1));
        assert(net.valid_state(sb.0, sb.1));
        let xa = position_number(n, sa) - sa.0 * (n + 1);
        let xb = position_number(n, sb) - sb.0 * (n + 1);
        lemma_position_number(n, sa.0 as int, xa, sb.0 as int, xb);
        assert(sa.0 == sb.0);
        assert(sa.1 == sb.1);
        if a < b {
            (a, b)
        } else {
            (b, a)
        }
    }
}

/// A sequence of distinct integers in `[0, m)` has at most `m` elements.
proof fn lemma_distinct_ints_bound(t: Seq<int>, m: int)
    requires
        0 <= m,
        t.no_duplicates(),
        forall|k: int| 0 <= k < t.len() ==> 0 <= #[trigger] t[k] < m,
    ensures
        t.len() <= m,
{
    t.unique_seq_to_set();
    vstd::set_lib::lemma_int_range(0, m);
    assert(t.to_set().subset_of(vstd::set_lib::set_int_range(0, m))) by {
        assert forall|x: int| t.to_set().contains(x) implies vstd::set_lib::set_int_range(0, m).contains(x) by {
            let k = choose|k: int| 0 <= k < t.len() && t[k] == x;
        }
    }
    vstd::set_lib::lemma_len_subset(t.to_set(), vstd::set_lib::set_int_range(0, m));
}

/// Given as many steps as there are walk positions, the walk from a valid position
/// builds exactly what it builds when it ends, and fails exactly when it never ends.
pub proof fn lemma_enough_steps(net: Net, curr: usize, end: Option<usize>, f: nat)
    requires
        net.wf(),
        net.valid_state(curr, end),
        f >= position_count(net),
    ensures
        chain(net, curr, end, f) == outcome(net, curr, end),
{
    if ends(net, curr, end) {
        let g = choose|g: nat| #[trigger] chain(net, curr, end, g) is Some;
        if chain(net, curr, end, f) is None {
            let p = lemma_failing_route(net, curr, end, f);
            let (i, j) = lemma_route_repeats(net, p);
            lemma_route_loops(net, p, i, j, 0, g);
            assert(false);
        }
        lemma_chain_unique(net, curr, end, f, g);
    } else {
        if chain(net, curr, end, f) is Some {
            assert(ends(net, curr, end));
        }
    }
}

} // verus!
