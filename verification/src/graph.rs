//! The pipeline editor's graph as plain values: nodes with their ids and
//! kinds, and the wires between them, each in the order the editor lists them.
use vstd::prelude::*;

verus! {

/// What a node of the pipeline editor is.
#[derive(Clone, Copy, Debug, PartialEq, Eq, Structural)]
pub enum NodeKind {
    Pipe,
    Fitting,
    Pump,
}

impl NodeKind {
    /// The title the editor shows on a node of this kind.
    pub fn title(&self) -> (res: &'static str)
        ensures
            res@ == match *self {
                NodeKind::Pump => "Насос"@,
                NodeKind::Pipe => "Труба"@,
                NodeKind::Fitting => "Местное сопротивление"@,
            },
    {
        match self {
            NodeKind::Pump => "Насос",
            NodeKind::Pipe => "Труба",
            NodeKind::Fitting => "Местное сопротивление",
        }
    }

    /// The number of input pins of a node of this kind: a pump has none, the others one.
    pub fn input_count(&self) -> (res: usize)
        ensures
            res == (if *self == NodeKind::Pump { 0usize } else { 1usize }),
    {
        match self {
            NodeKind::Pump => 0,
            NodeKind::Pipe | NodeKind::Fitting => 1,
        }
    }
}

/// A node of the editor: its id and its kind.
#[derive(Clone, Copy, Debug, PartialEq, Eq, Structural)]
pub struct GraphNode {
    pub id: usize,
    pub kind: NodeKind,
}

/// A wire from the output of node `from` into the input of node `to` (node ids).
#[derive(Clone, Copy, Debug, PartialEq, Eq, Structural)]
pub struct Wire {
    pub from: usize,
    pub to: usize,
}

/// The editor's graph: its nodes and wires, each in the editor's iteration order.
#[derive(Debug, PartialEq, Eq)]
pub struct PipeGraph {
    pub nodes: Vec<GraphNode>,
    pub wires: Vec<Wire>,
}

/// Successor lists over node positions: `adj[u]` lists, in wire order, the
/// positions of the nodes that node `u` feeds.
pub open spec fn adj_wf(adj: Seq<Seq<usize>>) -> bool {
    forall|u: int, k: int|
        0 <= u < adj.len() && 0 <= k < adj[u].len() ==> #[trigger] adj[u][k] < adj.len()
}

impl PipeGraph {
    pub open spec fn has_node(self, id: usize) -> bool {
        exists|i: int| 0 <= i < self.nodes@.len() && #[trigger] self.nodes@[i].id == id
    }

    /// Node ids are distinct and every wire joins two nodes of the graph.
    pub open spec fn well_formed(self) -> bool {
        &&& forall|i: int, j: int|
            0 <= i < self.nodes@.len() && 0 <= j < self.nodes@.len() && i != j
                ==> #[trigger] self.nodes@[i].id != #[trigger] self.nodes@[j].id
        &&& forall|k: int| 0 <= k < self.wires@.len() ==> self.joins_nodes(#[trigger] self.wires@[k])
    }

    pub open spec fn joins_nodes(self, w: Wire) -> bool {
        self.has_node(w.from) && self.has_node(w.to)
    }

    /// The position of the node with the given id.
    pub open spec fn position(self, id: usize) -> int {
        choose|i: int| 0 <= i < self.nodes@.len() && #[trigger] self.nodes@[i].id == id
    }

    /// Successor lists after the first `k` wires.
    pub open spec fn adjacency_upto(self, k: int) -> Seq<Seq<usize>>
        decreases k,
    {
        if k <= 0 {
            Seq::new(self.nodes@.len(), |i: int| Seq::<usize>::empty())
        } else {
            let a = self.adjacency_upto(k - 1);
            let w = self.wires@[k - 1];
            let f = self.position(w.from);
            a.update(f, a[f].push(self.position(w.to) as usize))
        }
    }

    /// For each node position, the positions of the nodes its wires lead to, in wire order.
    pub open spec fn adjacency(self) -> Seq<Seq<usize>> {
        self.adjacency_upto(self.wires@.len() as int)
    }

    /// The position of the node with id `id`, if there is one.
    pub fn find(&self, id: usize) -> (res: Option<usize>)
        requires
            self.well_formed(),
        ensures
            match res {
                Some(i) => self.has_node(id) && i == self.position(id),
                None => !self.has_node(id),
            },
    {
        let mut i: usize = 0;
        while i < self.nodes.len()
            invariant
                self.well_formed(),
                i <= self.nodes@.len(),
                forall|k: int| 0 <= k < i ==> self.nodes@[k].id != id,
            decreases self.nodes@.len() - i,
        {
            if self.nodes[i].id == id {
                assert(self.has_node(id));
                let ghost p = self.position(id);
                assert(self.nodes@[p].id == id);
                assert(p == i as int);
                return Some(i);
            }
            i = i + 1;
        }
        None
    }

    /// Whether the graph is well formed: distinct node ids, wires between existing nodes.
    pub fn is_well_formed(&self) -> (res: bool)
        ensures
            res == self.well_formed(),
    {
        let n = self.nodes.len();
        let mut i: usize = 0;
        while i < n
            invariant
                n == self.nodes@.len(),
                i <= n,
                forall|a: int, b: int|
                    0 <= a < i && 0 <= b < n && a != b ==> self.nodes@[a].id != self.nodes@[b].id,
            decreases n - i,
        {
            let mut j: usize = 0;
            while j < n
                invariant
                    n == self.nodes@.len(),
                    i < n,
                    j <= n,
                    forall|a: int, b: int|
                        0 <= a < i && 0 <= b < n && a != b ==> self.nodes@[a].id
                            != self.nodes@[b].id,
                    forall|b: int| 0 <= b < j && b != i ==> self.nodes@[i as int].id != self.nodes@[b].id,
                decreases n - j,
            {
                if j != i && self.nodes[i].id == self.nodes[j].id {
                    return false;
                }
                j = j + 1;
            }
            i = i + 1;
        }
        let mut k: usize = 0;
        while k < self.wires.len()
            invariant
                n == self.nodes@.len(),
                k <= self.wires@.len(),
                forall|a: int, b: int|
                    0 <= a < n && 0 <= b < n && a != b ==> self.nodes@[a].id != self.nodes@[b].id,
                forall|m: int| 0 <= m < k ==> self.joins_nodes(#[trigger] self.wires@[m]),
            decreases self.wires@.len() - k,
        {
            let w = self.wires[k];
            if !self.contains_id(w.from) || !self.contains_id(w.to) {
                assert(!self.joins_nodes(self.wires@[k as int]));
                return false;
            }
            assert(self.joins_nodes(self.wires@[k as int]));
            k = k + 1;
        }
        true
    }

    fn contains_id(&self, id: usize) -> (res: bool)
        ensures
            res == self.has_node(id),
    {
        let mut i: usize = 0;
        while i < self.nodes.len()
            invariant
                i <= self.nodes@.len(),
                forall|k: int| 0 <= k < i ==> self.nodes@[k].id != id,
            decreases self.nodes@.len() - i,
        {
            if self.nodes[i].id == id {
                return true;
            }
            i = i + 1;
        }
        false
    }

    /// The successor lists over node positions, built wire by wire.
    pub fn successors(&self) -> (adj: Vec<Vec<usize>>)
        requires
            self.well_formed(),
        ensures
            adj@.len() == self.nodes@.len(),
            adj@.map_values(|r: Vec<usize>| r@) == self.adjacency(),
            adj_wf(self.adjacency()),
    {
        let n = self.nodes.len();
        let mut adj: Vec<Vec<usize>> = Vec::new();
        let mut i: usize = 0;
        while i < n
            invariant
                n == self.nodes@.len(),
                i <= n,
                adj@.len() == i,
                forall|u: int| 0 <= u < i ==> (#[trigger] adj@[u])@.len() == 0,
            decreases n - i,
        {
            adj.push(Vec::new());
            i = i + 1;
        }
        assert forall|u: int| 0 <= u < n implies adj@[u]@ =~= Seq::<usize>::empty() by {}
        assert(adj@.map_values(|r: Vec<usize>| r@) =~= self.adjacency_upto(0));
        let mut k: usize = 0;
        while k < self.wires.len()
            invariant
                self.well_formed(),
                n == self.nodes@.len(),
                k <= self.wires@.len(),
                adj@.len() == n,
                adj@.map_values(|r: Vec<usize>| r@) == self.adjacency_upto(k as int),
                adj_wf(self.adjacency_upto(k as int)),
            decreases self.wires@.len() - k,
        {
            let w = self.wires[k];
            let f = self.find(w.from).unwrap();
            let t = self.find(w.to).unwrap();
            let ghost before = adj@.map_values(|r: Vec<usize>| r@);
            adj[f].push(t);
            assert(adj@.map_values(|r: Vec<usize>| r@) =~= before.update(
                f as int,
                before[f as int].push(t),
            ));
            k = k + 1;
        }
        adj
    }
}

/// The successor lists have one entry per node, and every successor is a node.
pub proof fn lemma_adjacency_len(g: PipeGraph)
    requires
        g.well_formed(),
    ensures
        g.adjacency().len() == g.nodes@.len(),
        adj_wf(g.adjacency()),
{
    lemma_adjacency_upto(g, g.wires@.len() as int);
}

proof fn lemma_adjacency_upto(g: PipeGraph, k: int)
    requires
        g.well_formed(),
        k <= g.wires@.len(),
    ensures
        g.adjacency_upto(k).len() == g.nodes@.len(),
        adj_wf(g.adjacency_upto(k)),
    decreases k,
{
    if k > 0 {
        lemma_adjacency_upto(g, k - 1);
        let a = g.adjacency_upto(k - 1);
        let w = g.wires@[k - 1];
        assert(g.joins_nodes(w));
        let f = g.position(w.from);
        let t = g.position(w.to);
        assert(0 <= f < g.nodes@.len() && g.nodes@[f].id == w.from);
        assert(0 <= t < g.nodes@.len() && g.nodes@[t].id == w.to);
        let b = g.adjacency_upto(k);
        assert forall|u: int, m: int| 0 <= u < b.len() && 0 <= m < b[u].len() implies #[trigger] b[u][m] < b.len() by {
            if u == f {
                if m < a[u].len() {
                    assert(b[u][m] == a[u][m]);
                }
            } else {
                assert(b[u] == a[u]);
            }
        }
    }
}

} // verus!
