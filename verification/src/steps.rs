//! How a chain is made of the nodes the walk passes: every pipe or fitting the walk
//! reaches contributes its own element first, a pump contributes nothing, and a node
//! with one successor is followed by the chain from that successor. The main line
//! of a model is the walk from the first node the pump feeds.
use vstd::prelude::*;
use crate::builder::{first_pump, model_of};
use crate::graph::{NodeKind, PipeGraph};
use crate::model::{Role, SpecComponent, SpecKind};
use crate::termination::ends;
use crate::walk::{chain, Net};

verus! {

/// A chain built from a pipe or fitting node (not the node it is to stop at) begins
/// with that node's own element, whatever the number of its successors.
pub proof fn lemma_chain_starts_at_its_node(net: Net, curr: usize, end: Option<usize>, f: nat)
    requires
        net.wf(),
        net.valid_state(curr, end),
        end != Some(curr),
        net.kinds[curr as int] == NodeKind::Pipe || net.kinds[curr as int] == NodeKind::Fitting,
        chain(net, curr, end, f) is Some,
    ensures
        ({
            let s = chain(net, curr, end, f)->Some_0;
            &&& s.len() >= 1
            &&& s[0].role == Role::Element
            &&& net.kinds[curr as int] == NodeKind::Pipe ==> s[0].kind == SpecKind::Pipe { node: net.ids[curr as int] }
            &&& net.kinds[curr as int] == NodeKind::Fitting ==> s[0].kind == SpecKind::Fitting { node: net.ids[curr as int] }
        }),
{
    let s = chain(net, curr, end, f)->Some_0;
    let succ = net.adj[curr as int];
    if succ.len() == 1 {
        let rest = chain(net, succ[0], end, (f - 1) as nat)->Some_0;
        assert(s[0] == crate::walk::element(net, curr)[0]);
    } else if succ.len() >= 2 {
        let conv = convergence_of(net, curr);
        let bs = crate::walk::branches(net, succ, conv, (f - 1) as nat)->Some_0;
        let par = crate::walk::element(net, curr).push(crate::walk::junction(bs, conv is Some));
        assert(par[0] == crate::walk::element(net, curr)[0]);
        if let Some(c) = conv {
            let rest = chain(net, c, end, (f - 1) as nat)->Some_0;
            assert((par + rest)[0] == par[0]);
        }
    }
}

spec fn convergence_of(net: Net, curr: usize) -> Option<usize> {
    crate::junction::convergence(net.adj, curr, net.adj[curr as int])
}

/// From a node with a single successor (not the node to stop at), the chain is the
/// node's own element (a pipe or fitting; nothing for a pump) followed by the chain
/// from that successor, given one step less.
pub proof fn lemma_chain_single_successor(net: Net, curr: usize, end: Option<usize>, f: nat)
    requires
        net.wf(),
        net.valid_state(curr, end),
        end != Some(curr),
        net.adj[curr as int].len() == 1,
        f > 0,
    ensures
        ({
            let next = net.adj[curr as int][0];
            let own = SpecComponent {
                role: Role::Element,
                kind: if net.kinds[curr as int] == NodeKind::Pipe {
                    SpecKind::Pipe { node: net.ids[curr as int] }
                } else {
                    SpecKind::Fitting { node: net.ids[curr as int] }
                },
            };
            match chain(net, next, end, (f - 1) as nat) {
                None => chain(net, curr, end, f) is None,
                Some(rest) => chain(net, curr, end, f) == Some(
                    if net.kinds[curr as int] == NodeKind::Pump { rest } else { seq![own] + rest },
                ),
            }
        }),
{
    let next = net.adj[curr as int][0];
    if let Some(rest) = chain(net, next, end, (f - 1) as nat) {
        if net.kinds[curr as int] == NodeKind::Pump {
            assert(seq![] + rest =~= rest);
        }
    }
}

/// The main line of a model is the walk from the first node the first pump feeds:
/// the model is `Endless` exactly when that walk never ends, and otherwise its main
/// line holds the chain that walk builds, which begins with that node's element when
/// the node is a pipe or fitting. A pump that feeds nothing gives an empty main line.
pub proof fn lemma_main_line_from_pump(g: PipeGraph)
    requires
        g.well_formed(),
        first_pump(g.nodes@) is Some,
    ensures
        ({
            let net = g.net();
            let p = first_pump(g.nodes@)->Some_0;
            let succ = net.adj[p];
            &&& succ.len() == 0 ==> model_of(g) == Ok::<(usize, SpecComponent), crate::builder::ModelError>(
                (net.ids[p], SpecComponent { role: Role::Main, kind: SpecKind::Series(seq![]) }),
            )
            &&& succ.len() >= 1 ==> (model_of(g) is Err <==> !ends(net, succ[0], None))
            &&& succ.len() >= 1 ==> (model_of(g) matches Ok((pump, main)) ==> {
                &&& pump == net.ids[p]
                &&& main.role == Role::Main
                &&& exists|f: nat| #[trigger] chain(net, succ[0], None, f) == Some(main.kind->Series_0)
                &&& main.kind is Series
                &&& net.kinds[succ[0] as int] == NodeKind::Pipe ==> main.kind->Series_0.len() >= 1
                    && main.kind->Series_0[0] == SpecComponent {
                        role: Role::Element,
                        kind: SpecKind::Pipe { node: net.ids[succ[0] as int] },
                    }
                &&& net.kinds[succ[0] as int] == NodeKind::Fitting ==> main.kind->Series_0.len() >= 1
                    && main.kind->Series_0[0] == SpecComponent {
                        role: Role::Element,
                        kind: SpecKind::Fitting { node: net.ids[succ[0] as int] },
                    }
            })
        }),
{
    let net = g.net();
    crate::graph::lemma_adjacency_len(g);
    let p = first_pump(g.nodes@)->Some_0;
    crate::shape::lemma_first_pump(g.nodes@, 0);
    assert(g.nodes@.len() == g.nodes.len());
    assert((p as usize) as int == p);
    assert(net.ids[p] == g.nodes@[p].id);
    let succ = net.adj[p];
    if succ.len() >= 1 {
        let start = succ[0];
        assert(start < net.adj.len());
        if ends(net, start, None) {
            let f = choose|f: nat| #[trigger] chain(net, start, None, f) is Some;
            assert(chain(net, start, None, f) is Some);
            let s = chain(net, start, None, f)->Some_0;
            assert(model_of(g) == Ok::<(usize, SpecComponent), crate::builder::ModelError>(
                (net.ids[p], SpecComponent { role: Role::Main, kind: SpecKind::Series(s) }),
            ));
            if net.kinds[start as int] == NodeKind::Pipe || net.kinds[start as int] == NodeKind::Fitting {
                lemma_chain_starts_at_its_node(net, start, None, f);
            }
        }
    }
}

/// The own element of a node in a chain: one for a pipe or fitting, none for a pump.
pub open spec fn own_elements(net: Net, i: usize) -> Seq<SpecComponent> {
    if net.kinds[i as int] == NodeKind::Pipe {
        seq![SpecComponent { role: Role::Element, kind: SpecKind::Pipe { node: net.ids[i as int] } }]
    } else if net.kinds[i as int] == NodeKind::Fitting {
        seq![SpecComponent { role: Role::Element, kind: SpecKind::Fitting { node: net.ids[i as int] } }]
    } else {
        seq![]
    }
}

proof fn lemma_own_elements(net: Net, i: usize)
    ensures
        own_elements(net, i) == crate::walk::element(net, i),
{
}

/// A walk that reaches the node it is to stop at builds nothing more; one from a node
/// without successors builds just that node's own element.
pub proof fn lemma_chain_stops(net: Net, curr: usize, end: Option<usize>, f: nat)
    requires
        f > 0,
    ensures
        end == Some(curr) ==> chain(net, curr, end, f) == Some(Seq::<SpecComponent>::empty()),
        end != Some(curr) && net.adj[curr as int].len() == 0 ==> chain(net, curr, end, f) == Some(
            own_elements(net, curr),
        ),
{
    lemma_own_elements(net, curr);
}

/// At a fork (a node with two or more successors, not the node to stop at), a chain
/// that is built is the node's own element, then a parallel section with one branch per
/// successor in wire order, branch `k` holding the walk from successor `k` to the
/// meeting point, and then, when the branches meet, the walk on from the meeting point.
/// The section is a `Junction` when the branches meet and an `OpenJunction` otherwise.
pub proof fn lemma_chain_fork(net: Net, curr: usize, end: Option<usize>, f: nat)
    requires
        net.wf(),
        net.valid_state(curr, end),
        end != Some(curr),
        net.adj[curr as int].len() >= 2,
        chain(net, curr, end, f) is Some,
    ensures
        ({
            let s = chain(net, curr, end, f)->Some_0;
            let own = own_elements(net, curr);
            let succ = net.adj[curr as int];
            let meet = crate::junction::convergence(net.adj, curr, succ);
            let sec = s[own.len() as int];
            &&& f > 0
            &&& s.len() > own.len()
            &&& s.subrange(0, own.len() as int) == own
            &&& (sec.role == Role::Junction <==> meet is Some)
            &&& (sec.role == Role::OpenJunction <==> meet is None)
            &&& sec.kind is Parallel
            &&& sec.kind->Parallel_0.len() == succ.len()
            &&& forall|k: int| 0 <= k < succ.len() ==> {
                let b = #[trigger] sec.kind->Parallel_0[k];
                &&& b.role == Role::Branch
                &&& chain(net, succ[k], meet, (f - 1) as nat) == Some(b.kind->Series_0)
                &&& b.kind is Series
            }
            &&& meet is None ==> s.len() == own.len() + 1
            &&& meet matches Some(c) ==> chain(net, c, end, (f - 1) as nat) == Some(
                s.subrange(own.len() as int + 1, s.len() as int),
            )
        }),
{
    lemma_own_elements(net, curr);
    let succ = net.adj[curr as int];
    let meet = crate::junction::convergence(net.adj, curr, succ);
    let own = own_elements(net, curr);
    let bs = crate::walk::branches(net, succ, meet, (f - 1) as nat)->Some_0;
    lemma_branches_walks(net, succ, meet, (f - 1) as nat);
    let par = own.push(crate::walk::junction(bs, meet is Some));
    let s = chain(net, curr, end, f)->Some_0;
    assert(par.subrange(0, own.len() as int) =~= own);
    if let Some(c) = meet {
        let rest = chain(net, c, end, (f - 1) as nat)->Some_0;
        assert(s == par + rest);
        assert(s.subrange(0, own.len() as int) =~= own);
        assert(s.subrange(own.len() as int + 1, s.len() as int) =~= rest);
        assert(s[own.len() as int] == par[own.len() as int]);
    } else {
        assert(s == par);
    }
}

/// The branches built for a list of starts are, in order, the walks from each start.
proof fn lemma_branches_walks(net: Net, starts: Seq<usize>, meet: Option<usize>, f: nat)
    requires
        crate::walk::branches(net, starts, meet, f) is Some,
    ensures
        ({
            let bs = crate::walk::branches(net, starts, meet, f)->Some_0;
            &&& bs.len() == starts.len()
            &&& forall|k: int| 0 <= k < starts.len() ==> {
                let b = #[trigger] bs[k];
                &&& b.role == Role::Branch
                &&& b.kind is Series
                &&& chain(net, starts[k], meet, f) == Some(b.kind->Series_0)
            }
        }),
    decreases starts.len(),
{
    if starts.len() > 0 {
        let init = starts.drop_last();
        lemma_branches_walks(net, init, meet, f);
        let bs = crate::walk::branches(net, starts, meet, f)->Some_0;
        let b0 = crate::walk::branches(net, init, meet, f)->Some_0;
        assert forall|k: int| 0 <= k < starts.len() implies {
            let b = #[trigger] bs[k];
            &&& b.role == Role::Branch
            &&& b.kind is Series
            &&& chain(net, starts[k], meet, f) == Some(b.kind->Series_0)
        } by {
            if k < init.len() {
                assert(bs[k] == b0[k]);
                assert(starts[k] == init[k]);
            }
        }
    }
}

/// The model is built from the first pump in the editor's node order, and fails with
/// `PumpNotFound` exactly when the graph has no pump.
pub proof fn lemma_first_pump_used(g: PipeGraph)
    ensures
        model_of(g) == Err::<(usize, SpecComponent), crate::builder::ModelError>(crate::builder::ModelError::PumpNotFound)
            <==> forall|i: int| 0 <= i < g.nodes@.len() ==> #[trigger] g.nodes@[i].kind != NodeKind::Pump,
        model_of(g) matches Ok((pump, _)) ==> exists|p: int|
            0 <= p < g.nodes@.len() && g.nodes@[p].id == pump && g.nodes@[p].kind == NodeKind::Pump
                && forall|i: int| 0 <= i < p ==> #[trigger] g.nodes@[i].kind != NodeKind::Pump,
{
    lemma_first_pump_from(g.nodes@, 0);
    if first_pump(g.nodes@) is Some {
        let p = first_pump(g.nodes@)->Some_0;
        assert(g.nodes@[p].kind == NodeKind::Pump);
    }
}

proof fn lemma_first_pump_from(nodes: Seq<crate::graph::GraphNode>, k: int)
    requires
        0 <= k,
    ensures
        match crate::builder::first_pump_from(nodes, k) {
            Some(p) => k <= p < nodes.len() && nodes[p].kind == NodeKind::Pump
                && forall|i: int| k <= i < p ==> #[trigger] nodes[i].kind != NodeKind::Pump,
            None => forall|i: int| k <= i < nodes.len() ==> #[trigger] nodes[i].kind != NodeKind::Pump,
        },
    decreases nodes.len() - k,
{
    if k < nodes.len() && nodes[k].kind != NodeKind::Pump {
        lemma_first_pump_from(nodes, k + 1);
    }
}

} // verus!
