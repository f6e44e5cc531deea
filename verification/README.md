# pipenet

The model behind a hydraulic pipeline editor. In the editor, pumps, pipes and
fittings are nodes joined by wires. This library turns that graph into the tree
that the hydraulic calculation works on: starting at the first pump, it follows
the wires. Where the wires fork, it builds a parallel section whose branches run
to the point where they meet again, which is the first node in breadth-first order
that every branch reaches.

`src/` is the library, verified with Verus:

- `graph`: the editor's graph as plain values, and its successor lists
- `search`: breadth-first search, shown to find exactly the reachable nodes
- `junction`: where the branches of a fork meet again
- `nearest`: breadth-first order is by distance, so the meeting point is a nearest one
- `model`: the model's components
- `walk`: the walk that builds a chain of components, and what it builds
- `termination`: a walk that ends at all ends within a known number of steps
- `builder`: building the model from the graph
- `shape`, `acyclic`: what every model looks like, and why a graph without loops always gives one
- `docs`: the state of the documentation panel

`app/` is the egui application: the node editor, the hydraulic calculation in
floating point, the results table and the Q-H plot.
