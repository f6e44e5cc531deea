//! Walking the pipeline from the pump: a chain of elements runs from node to
//! node; where the wires fork, each branch is walked to the point where the
//! branches meet again, and the chain goes on from there.
use vstd::prelude::*;
use crate::graph::{adj_wf, NodeKind, PipeGraph};
use crate::junction::{convergence, find_convergence, lemma_convergence};
use crate::model::{Component, ElementKind, Role, SpecComponent, SpecKind, lemma_view_parts, views};
use crate::search::rows;

verus! {

/// The graph as the walk reads it: node ids and kinds by position, and successor lists.
pub struct Net {
    pub ids: Seq<usize>,
    pub kinds: Seq<NodeKind>,
    pub adj: Seq<Seq<usize>>,
}

impl PipeGraph {
    pub open spec fn net(self) -> Net {
        Net {
            ids: self.nodes@.map_values(|n: crate::graph::GraphNode| n.id),
            kinds: self.nodes@.map_values(|n: crate::graph::GraphNode| n.kind),
            adj: self.adjacency(),
        }
    }
}

impl Net {
    pub open spec fn wf(self) -> bool {
        &&& self.ids.len() == self.adj.len()
        &&& self.kinds.len() == self.adj.len()
        &&& adj_wf(self.adj)
    }

    /// A walk position: the node reached and the node where the walk is to stop, if any.
    pub open spec fn valid_state(self, curr: usize, end: Option<usize>) -> bool {
        &&& curr < self.adj.len()
        &&& (end matches Some(e) ==> e < self.adj.len())
    }
}

/// The component a node contributes to its chain: pipes and fittings one, a pump none.
pub open spec fn element(net: Net, i: usize) -> Seq<SpecComponent> {
    match net.kinds[i as int] {
        NodeKind::Pipe => seq![SpecComponent { role: Role::Element, kind: SpecKind::Pipe { node: net.ids[i as int] } }],
        NodeKind::Fitting => seq![SpecComponent { role: Role::Element, kind: SpecKind::Fitting { node: net.ids[i as int] } }],
        NodeKind::Pump => seq![],
    }
}

/// The parallel section for the given branches.
pub open spec fn junction(branches: Seq<SpecComponent>, meets: bool) -> SpecComponent {
    SpecComponent {
        role: if meets { Role::Junction } else { Role::OpenJunction },
        kind: SpecKind::Parallel(branches),
    }
}

/// The chain of components from `curr` up to `end`, if the walk ends within `fuel`
/// steps: each step moves along a wire to the next node, or walks the branches of a
/// fork and moves to where they meet; a walk inside a branch takes one step more.
/// The chain stops at `end`, at a node without outgoing wires, and after a fork
/// whose branches do not meet.
pub open spec fn chain(net: Net, curr: usize, end: Option<usize>, fuel: nat) -> Option<Seq<SpecComponent>>
    decreases fuel, 0nat,
{
    if fuel == 0 {
        None
    } else if end == Some(curr) {
        Some(seq![])
    } else {
        let here = element(net, curr);
        let succ = net.adj[curr as int];
        if succ.len() == 0 {
            Some(here)
        } else if succ.len() == 1 {
            match chain(net, succ[0], end, (fuel - 1) as nat) {
                Some(rest) => Some(here + rest),
                None => None,
            }
        } else {
            let conv = convergence(net.adj, curr, succ);
            match branches(net, succ, conv, (fuel - 1) as nat) {
                None => None,
                Some(bs) => {
                    let par = here.push(junction(bs, conv is Some));
                    match conv {
                        None => Some(par),
                        Some(c) => match chain(net, c, end, (fuel - 1) as nat) {
                            Some(rest) => Some(par + rest),
                            None => None,
                        },
                    }
                }
            }
        }
    }
}

/// The branches that start at `starts`, each walked up to `conv`.
pub open spec fn branches(net: Net, starts: Seq<usize>, conv: Option<usize>, fuel: nat) -> Option<Seq<SpecComponent>>
    decreases fuel, starts.len() + 1,
{
    if starts.len() == 0 {
        Some(seq![])
    } else {
        match (branches(net, starts.drop_last(), conv, fuel), chain(net, starts.last(), conv, fuel)) {
            (Some(bs), Some(c)) => Some(bs.push(SpecComponent { role: Role::Branch, kind: SpecKind::Series(c) })),
            _ => None,
        }
    }
}

/// Once some branch cannot be walked, neither can any longer list of branches.
pub proof fn lemma_branches_prefix_none(net: Net, starts: Seq<usize>, k: int, conv: Option<usize>, fuel: nat)
    requires
        0 <= k <= starts.len(),
        branches(net, starts.take(k), conv, fuel) is None,
    ensures
        branches(net, starts, conv, fuel) is None,
    decreases starts.len() - k,
{
    if k < starts.len() {
        assert(starts.take(k + 1).drop_last() =~= starts.take(k));
        lemma_branches_prefix_none(net, starts, k + 1, conv, fuel);
    } else {
        assert(starts.take(k) =~= starts);
    }
}

/// Walks the chain from the node at position `start` up to the node at position `end`
/// (positions in `g.nodes`), given room for `steps` steps; `None` when that is not enough.
pub fn walk_chain(
    g: &PipeGraph,
    adj: &Vec<Vec<usize>>,
    start: usize,
    end: Option<usize>,
    steps: usize,
) -> (res: Option<Vec<Component>>)
    requires
        g.net().wf(),
        rows(adj@) == g.net().adj,
        g.net().valid_state(start, end),
    ensures
        match res {
            Some(v) => chain(g.net(), start, end, steps as nat) == Some(views(v@)),
            None => chain(g.net(), start, end, steps as nat) is None,
        },
    decreases steps,
{
    let ghost net = g.net();
    let mut curr = start;
    let mut fuel = steps;
    let mut elems: Vec<Component> = Vec::new();
    loop
        invariant
            net == g.net(),
            net.wf(),
            rows(adj@) == net.adj,
            net.valid_state(curr, end),
            fuel <= steps,
            match chain(net, curr, end, fuel as nat) {
                Some(r) => chain(net, start, end, steps as nat) == Some(views(elems@) + r),
                None => chain(net, start, end, steps as nat) is None,
            },
        decreases fuel,
    {
        let ghost e0 = views(elems@);
        if fuel == 0 {
            assert(chain(net, curr, end, fuel as nat) is None);
            return None;
        }
        assert(match chain(net, curr, end, fuel as nat) {
                Some(r) => chain(net, start, end, steps as nat) == Some(e0 + r),
                None => chain(net, start, end, steps as nat) is None,
            });
        let at_end = match end {
            Some(e) => e == curr,
            None => false,
        };
        if at_end {
            assert(views(elems@) + seq![] =~= views(elems@));
            return Some(elems);
        }
        assert(g.nodes@[curr as int].kind == net.kinds[curr as int]);
        assert(g.nodes@[curr as int].id == net.ids[curr as int]);
        match g.nodes[curr].kind {
            NodeKind::Pipe => {
                elems.push(Component { role: Role::Element, kind: ElementKind::Pipe { node: g.nodes[curr].id } });
            },
            NodeKind::Fitting => {
                elems.push(Component { role: Role::Element, kind: ElementKind::Fitting { node: g.nodes[curr].id } });
            },
            NodeKind::Pump => {},
        }
        assert(views(elems@) =~= e0 + element(net, curr));
        let succ = &adj[curr];
        assert(succ@ == net.adj[curr as int]);
        if succ.len() == 0 {
            return Some(elems);
        }
        if succ.len() == 1 {
            let next = succ[0];
            proof {
                match chain(net, next, end, (fuel - 1) as nat) {
                    Some(r) => {
                        assert(views(elems@) + r =~= e0 + (element(net, curr) + r));
                    },
                    None => {},
                }
            }
            curr = next;
            fuel = fuel - 1;
        } else {
            proof {
                lemma_convergence(net.adj, curr, succ@);
            }
            let conv = find_convergence(adj, curr, succ);
            let ghost gconv = conv;
            let mut bs: Vec<Component> = Vec::new();
            let mut i: usize = 0;
            while i < succ.len()
                invariant
                    net == g.net(),
                    net.wf(),
                    rows(adj@) == net.adj,
                    succ@ == net.adj[curr as int],
                    0 < fuel <= steps,
                    curr < net.adj.len(),
                    end != Some(curr),
                    succ@.len() >= 2,
                    conv == convergence(net.adj, curr, succ@),
                    match chain(net, curr, end, fuel as nat) {
                        Some(r) => chain(net, start, end, steps as nat) == Some(e0 + r),
                        None => chain(net, start, end, steps as nat) is None,
                    },
                    i <= succ@.len(),
                    conv == gconv,
                    conv matches Some(c) ==> c < net.adj.len(),
                    branches(net, succ@.take(i as int), conv, (fuel - 1) as nat) == Some(views(bs@)),
                decreases succ@.len() - i,
            {
                let first = succ[i];
                assert(first == net.adj[curr as int][i as int]);
                assert(first < net.adj.len());
                assert(succ@.take(i + 1).drop_last() =~= succ@.take(i as int));
                assert(succ@.take(i + 1).last() == first);
                match walk_chain(g, adj, first, conv, fuel - 1) {
                    Some(c) => {
                        let ghost b0 = bs@;
                        let branch = Component { role: Role::Branch, kind: ElementKind::Series(c) };
                        proof {
                            lemma_view_parts(branch);
                        }
                        bs.push(branch);
                        assert(views(bs@) =~= views(b0).push(
                            SpecComponent { role: Role::Branch, kind: SpecKind::Series(views(c@)) },
                        ));
                    },
                    None => {
                        proof {
                            lemma_branches_prefix_none(net, succ@, i + 1, conv, (fuel - 1) as nat);
                        }
                        return None;
                    },
                }
                i = i + 1;
            }
            assert(succ@.take(succ@.len() as int) =~= succ@);
            let role = match conv {
                Some(_) => Role::Junction,
                None => Role::OpenJunction,
            };
            let ghost e1 = elems@;
            let section = Component { role: role, kind: ElementKind::Parallel(bs) };
            proof {
                lemma_view_parts(section);
            }
            elems.push(section);
            assert(views(elems@) =~= views(e1).push(junction(views(bs@), conv is Some)));
            match conv {
                None => {
                    return Some(elems);
                },
                Some(c) => {
                    proof {
                        match chain(net, c, end, (fuel - 1) as nat) {
                            Some(r) => {
                                assert(views(elems@) + r =~= e0 + (element(net, curr).push(
                                    junction(views(bs@), true),
                                ) + r));
                            },
                            None => {},
                        }
                    }
                    curr = c;
                    fuel = fuel - 1;
                },
            }
        }
    }
}

} // verus!
