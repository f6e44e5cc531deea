//! Building the pipeline model from the editor's graph.
use vstd::prelude::*;
use crate::graph::{GraphNode, NodeKind, PipeGraph};
use crate::model::{Component, ElementKind, Role, SpecComponent, SpecKind, lemma_view_parts, views};
use crate::termination::{lemma_enough_steps, outcome, position_count};
use crate::walk::{walk_chain, Net};

verus! {

/// Why no model could be built.
#[derive(Clone, Copy, Debug, PartialEq, Eq, Structural)]
pub enum ModelError {
    /// The graph has no pump.
    PumpNotFound,
    /// The walk from the pump never ends: the wires lead it round in a loop.
    Endless,
}

/// The model of a pipeline: the pump it starts from (its node id) and the main line.
#[derive(Debug, PartialEq, Eq)]
pub struct PipelineModel {
    pub pump: usize,
    pub main: Component,
}

/// The position of the first pump among `nodes`, looking from position `k` on.
pub open spec fn first_pump_from(nodes: Seq<GraphNode>, k: int) -> Option<int>
    decreases nodes.len() - k,
{
    if k < 0 || k >= nodes.len() {
        None
    } else if nodes[k].kind == NodeKind::Pump {
        Some(k)
    } else {
        first_pump_from(nodes, k + 1)
    }
}

/// The position of the first pump in the editor's node order.
pub open spec fn first_pump(nodes: Seq<GraphNode>) -> Option<int> {
    first_pump_from(nodes, 0)
}

/// The chain of the main line: empty when the pump feeds nothing, else the walk from
/// the first node the pump feeds, to its natural end.
pub open spec fn main_line(net: Net, pump: usize) -> Option<Seq<SpecComponent>> {
    if net.adj[pump as int].len() == 0 {
        Some(seq![])
    } else {
        outcome(net, net.adj[pump as int][0], None)
    }
}

/// The main-line component holding the given chain.
pub open spec fn main_component(parts: Seq<SpecComponent>) -> SpecComponent {
    SpecComponent { role: Role::Main, kind: SpecKind::Series(parts) }
}

/// What building the model from `g` gives: `None` for a graph without a pump or whose
/// walk never ends, else the pump's node id and the main line.
pub open spec fn model_of(g: PipeGraph) -> Result<(usize, SpecComponent), ModelError> {
    match first_pump(g.nodes@) {
        None => Err(ModelError::PumpNotFound),
        Some(p) => match main_line(g.net(), p as usize) {
            None => Err(ModelError::Endless),
            Some(parts) => Ok((g.nodes@[p].id, main_component(parts))),
        },
    }
}

/// Builds the pipeline model from the editor's graph: finds the first pump, then walks
/// from the first node it feeds, turning each fork into a parallel section whose
/// branches run to where they meet again. A walk that would go round a loop for ever
/// is reported as `Endless`; the walk is given as many steps as there are walk
/// positions, which is enough for every walk that ends.
pub fn build_model(graph: &PipeGraph) -> (res: Result<PipelineModel, ModelError>)
    requires
        graph.well_formed(),
        graph.nodes@.len() * (graph.nodes@.len() + 1) <= usize::MAX,
    ensures
        match (res, model_of(*graph)) {
            (Ok(m), Ok((pump, main))) => m.pump == pump && m.main@ == main,
            (Err(e), Err(f)) => e == f,
            _ => false,
        },
{
    let n = graph.nodes.len();
    let mut p: usize = 0;
    while p < n && graph.nodes[p].kind != NodeKind::Pump
        invariant
            n == graph.nodes@.len(),
            p <= n,
            first_pump(graph.nodes@) == first_pump_from(graph.nodes@, p as int),
        decreases n - p,
    {
        p = p + 1;
    }
    if p == n {
        return Err(ModelError::PumpNotFound);
    }
    let adj = graph.successors();
    let ghost net = graph.net();
    assert(net.wf());
    let parts = if adj[p].len() == 0 {
        Vec::new()
    } else {
        let start = adj[p][0];
        assert(start == net.adj[p as int][0]);
        assert(start < n);
        assert(n + 1 <= usize::MAX && n * (n + 1) <= usize::MAX) by (nonlinear_arith)
            requires
                1 <= n,
                n * (n + 1) <= usize::MAX,
        {
            assert(n * (n + 1) >= n + 1);
        }
        let fuel = n * (n + 1);
        assert(fuel as nat == position_count(net));
        proof {
            lemma_enough_steps(net, start, None, fuel as nat);
        }
        match walk_chain(graph, &adj, start, None, fuel) {
            Some(v) => v,
            None => {
                return Err(ModelError::Endless);
            },
        }
    };
    assert(main_line(net, p) == Some(views(parts@)));
    let main = Component { role: Role::Main, kind: ElementKind::Series(parts) };
    proof {
        lemma_view_parts(main);
    }
    Ok(PipelineModel { pump: graph.nodes[p].id, main })
}

} // verus!
