//! The shape of every model: its elements are the pipes and fittings of the graph,
//! and every parallel section has at least two branches, each a series of elements.
use vstd::prelude::*;
use crate::builder::{main_line, model_of, first_pump, first_pump_from};
use crate::graph::{NodeKind, PipeGraph, GraphNode};
use crate::junction::convergence;
use crate::model::{Role, SpecComponent, SpecKind};
use crate::termination::{ends, outcome};
use crate::walk::{branches, chain, element, junction, Net};

verus! {

/// Some node at a position has the given id and kind.
pub open spec fn has_node_of_kind(net: Net, id: usize, kind: NodeKind) -> bool {
    exists|i: int| 0 <= i < net.ids.len() && #[trigger] net.ids[i] == id && net.kinds[i] == kind
}

/// An entry of a chain: a pipe or fitting node of the graph, or a parallel section
/// of at least two well-formed branches.
pub open spec fn entry_ok(net: Net, c: SpecComponent) -> bool
    decreases c,
{
    match c.kind {
        SpecKind::Pipe { node } => c.role == Role::Element && has_node_of_kind(net, node, NodeKind::Pipe),
        SpecKind::Fitting { node } => c.role == Role::Element && has_node_of_kind(net, node, NodeKind::Fitting),
        SpecKind::Series(_) => false,
        SpecKind::Parallel(bs) => {
            &&& (c.role == Role::Junction || c.role == Role::OpenJunction)
            &&& bs.len() >= 2
            &&& forall|k: int| 0 <= k < bs.len() ==> branch_ok(net, #[trigger] bs[k])
        },
    }
}

/// A branch: a series of well-formed entries.
pub open spec fn branch_ok(net: Net, b: SpecComponent) -> bool
    decreases b,
{
    &&& b.role == Role::Branch
    &&& match b.kind {
        SpecKind::Series(parts) => forall|k: int| 0 <= k < parts.len() ==> entry_ok(net, #[trigger] parts[k]),
        _ => false,
    }
}

/// All entries of a chain are well formed.
pub open spec fn chain_ok(net: Net, s: Seq<SpecComponent>) -> bool {
    forall|k: int| 0 <= k < s.len() ==> entry_ok(net, #[trigger] s[k])
}

proof fn lemma_element_ok(net: Net, i: usize)
    requires
        net.wf(),
        i < net.adj.len(),
    ensures
        chain_ok(net, element(net, i)),
{
    let e = element(net, i);
    if e.len() > 0 {
        assert(net.ids[i as int] == net.ids[i as int]);
        assert(entry_ok(net, e[0]));
    }
}

proof fn lemma_chain_ok(net: Net, curr: usize, end: Option<usize>, f: nat)
    requires
        net.wf(),
        net.valid_state(curr, end),
    ensures
        chain(net, curr, end, f) matches Some(s) ==> chain_ok(net, s),
    decreases f, 0nat,
{
    if f > 0 && end != Some(curr) {
        let here = element(net, curr);
        lemma_element_ok(net, curr);
        let succ = net.adj[curr as int];
        if succ.len() == 1 {
            assert(succ[0] < net.adj.len());
            lemma_chain_ok(net, succ[0], end, (f - 1) as nat);
            if let Some(rest) = chain(net, succ[0], end, (f - 1) as nat) {
                let s = here + rest;
                assert forall|k: int| 0 <= k < s.len() implies entry_ok(net, #[trigger] s[k]) by {
                    if k < here.len() {
                        assert(s[k] == here[k]);
                    } else {
                        assert(s[k] == rest[k - here.len()]);
                    }
                }
            }
        } else if succ.len() >= 2 {
            let conv = convergence(net.adj, curr, succ);
            crate::junction::lemma_convergence(net.adj, curr, succ);
            assert forall|k: int| 0 <= k < succ.len() implies #[trigger] succ[k] < net.adj.len() by {
                assert(net.adj[curr as int][k] < net.adj.len());
            }
            lemma_branches_ok(net, succ, conv, (f - 1) as nat);
            if let Some(bs) = branches(net, succ, conv, (f - 1) as nat) {
                let par = here.push(junction(bs, conv is Some));
                assert(entry_ok(net, junction(bs, conv is Some)));
                assert forall|k: int| 0 <= k < par.len() implies entry_ok(net, #[trigger] par[k]) by {
                    if k < here.len() {
                        assert(par[k] == here[k]);
                    }
                }
                if let Some(c) = conv {
                    lemma_chain_ok(net, c, end, (f - 1) as nat);
                    if let Some(rest) = chain(net, c, end, (f - 1) as nat) {
                        let s = par + rest;
                        assert forall|k: int| 0 <= k < s.len() implies entry_ok(net, #[trigger] s[k]) by {
                            if k < par.len() {
                                assert(s[k] == par[k]);
                            } else {
                                assert(s[k] == rest[k - par.len()]);
                            }
                        }
                    }
                }
            }
        }
    }
}

proof fn lemma_branches_ok(net: Net, starts: Seq<usize>, conv: Option<usize>, f: nat)
    requires
        net.wf(),
        forall|k: int| 0 <= k < starts.len() ==> #[trigger] starts[k] < net.adj.len(),
        conv matches Some(c) ==> c < net.adj.len(),
    ensures
        branches(net, starts, conv, f) matches Some(bs) ==> {
            &&& bs.len() == starts.len()
            &&& forall|k: int| 0 <= k < bs.len() ==> branch_ok(net, #[trigger] bs[k])
        },
    decreases f, starts.len() + 1,
{
    if starts.len() > 0 {
        let init = starts.drop_last();
        assert forall|k: int| 0 <= k < init.len() implies #[trigger] init[k] < net.adj.len() by {
            assert(init[k] == starts[k]);
        }
        lemma_branches_ok(net, init, conv, f);
        assert(starts.last() == starts[starts.len() - 1]);
        lemma_chain_ok(net, starts.last(), conv, f);
        if let Some(bs) = branches(net, starts, conv, f) {
            let b0 = branches(net, init, conv, f)->Some_0;
            let c = chain(net, starts.last(), conv, f)->Some_0;
            let b = SpecComponent { role: Role::Branch, kind: SpecKind::Series(c) };
            assert(bs == b0.push(b));
            assert(branch_ok(net, b));
            assert forall|k: int| 0 <= k < bs.len() implies branch_ok(net, #[trigger] bs[k]) by {
                if k < b0.len() {
                    assert(bs[k] == b0[k]);
                }
            }
        }
    }
}

/// Every model built from a well-formed graph starts at a pump of the graph, and its
/// main line is a series of entries each of which is a pipe or fitting of the graph
/// (never a pump) or a parallel section of at least two branches, each branch again
/// a series of such entries.
pub proof fn lemma_model_shape(g: PipeGraph)
    requires
        g.well_formed(),
        model_of(g) is Ok,
    ensures
        ({
            let (pump, main) = model_of(g)->Ok_0;
            &&& has_node_of_kind(g.net(), pump, NodeKind::Pump)
            &&& main.role == Role::Main
            &&& main.kind is Series
            &&& chain_ok(g.net(), main.kind->Series_0)
        }),
{
    let net = g.net();
    crate::graph::lemma_adjacency_len(g);
    let p = first_pump(g.nodes@)->Some_0;
    lemma_first_pump(g.nodes@, 0);
    assert(net.ids[p] == g.nodes@[p].id);
    assert(net.kinds[p] == g.nodes@[p].kind);
    assert(has_node_of_kind(net, g.nodes@[p].id, NodeKind::Pump));
    assert(0 <= p < g.nodes@.len());
    assert(g.nodes@.len() == g.nodes.len());
    assert((p as usize) as int == p);
    assert(model_of(g) == match main_line(net, p as usize) {
        None => Err(crate::builder::ModelError::Endless),
        Some(parts) => Ok((g.nodes@[p].id, crate::builder::main_component(parts))),
    });
    assert(main_line(net, p as usize) is Some);
    let parts = main_line(net, p as usize)->Some_0;
    if net.adj[p].len() > 0 {
        let start = net.adj[p][0];
        assert(start < net.adj.len());
        assert(outcome(net, start, None) is Some);
        assert(ends(net, start, None));
        let f = choose|f: nat| #[trigger] chain(net, start, None, f) is Some;
        lemma_chain_ok(net, start, None, f);
        assert(chain_ok(net, parts));
    } else {
        assert(parts.len() == 0);
    }
    assert(model_of(g)->Ok_0.1 == crate::builder::main_component(parts));
}

pub proof fn lemma_first_pump(nodes: Seq<GraphNode>, k: int)
    requires
        0 <= k,
    ensures
        first_pump_from(nodes, k) matches Some(p) ==> k <= p < nodes.len() && nodes[p].kind == NodeKind::Pump,
    decreases nodes.len() - k,
{
    if k < nodes.len() && nodes[k].kind != NodeKind::Pump {
        lemma_first_pump(nodes, k + 1);
    }
}

} // verus!
