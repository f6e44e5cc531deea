use pipenet::builder::{build_model, ModelError, PipelineModel};
use pipenet::graph::{GraphNode, NodeKind, PipeGraph, Wire};
use pipenet::model::{Component, ElementKind, Role};
use pipenet::walk::walk_chain;

fn node(id: usize, kind: NodeKind) -> GraphNode {
    GraphNode { id, kind }
}

fn wire(from: usize, to: usize) -> Wire {
    Wire { from, to }
}

fn graph(nodes: Vec<GraphNode>, wires: Vec<(usize, usize)>) -> PipeGraph {
    PipeGraph { nodes, wires: wires.into_iter().map(|(a, b)| wire(a, b)).collect() }
}

fn pipe(id: usize) -> Component {
    Component { role: Role::Element, kind: ElementKind::Pipe { node: id } }
}

fn fitting(id: usize) -> Component {
    Component { role: Role::Element, kind: ElementKind::Fitting { node: id } }
}

fn branch(parts: Vec<Component>) -> Component {
    Component { role: Role::Branch, kind: ElementKind::Series(parts) }
}

fn junction(branches: Vec<Component>) -> Component {
    Component { role: Role::Junction, kind: ElementKind::Parallel(branches) }
}

fn open_junction(branches: Vec<Component>) -> Component {
    Component { role: Role::OpenJunction, kind: ElementKind::Parallel(branches) }
}

fn main_line(parts: Vec<Component>) -> Component {
    Component { role: Role::Main, kind: ElementKind::Series(parts) }
}

#[test]
fn diamond_becomes_junction() {
    let g = graph(
        vec![
            node(10, NodeKind::Pump),
            node(11, NodeKind::Pipe),
            node(12, NodeKind::Fitting),
            node(13, NodeKind::Pipe),
            node(14, NodeKind::Pipe),
        ],
        vec![(10, 11), (11, 12), (11, 13), (12, 14), (13, 14)],
    );
    let m = build_model(&g).unwrap();
    let expected = PipelineModel {
        pump: 10,
        main: main_line(vec![
            pipe(11),
            junction(vec![branch(vec![fitting(12)]), branch(vec![pipe(13)])]),
            pipe(14),
        ]),
    };
    assert_eq!(m, expected);
}

#[test]
fn branch_order_follows_wire_order() {
    let g = graph(
        vec![
            node(10, NodeKind::Pump),
            node(11, NodeKind::Pipe),
            node(12, NodeKind::Fitting),
            node(13, NodeKind::Pipe),
            node(14, NodeKind::Pipe),
        ],
        vec![(10, 11), (11, 13), (11, 12), (13, 14), (12, 14)],
    );
    let m = build_model(&g).unwrap();
    assert_eq!(
        m.main,
        main_line(vec![
            pipe(11),
            junction(vec![branch(vec![pipe(13)]), branch(vec![fitting(12)])]),
            pipe(14),
        ])
    );
}

#[test]
fn no_pump_is_an_error() {
    let g = graph(vec![node(1, NodeKind::Pipe)], vec![]);
    assert_eq!(build_model(&g), Err(ModelError::PumpNotFound));
}

#[test]
fn empty_graph_has_no_pump() {
    let g = graph(vec![], vec![]);
    assert_eq!(build_model(&g), Err(ModelError::PumpNotFound));
}

#[test]
fn lone_pump_gives_empty_main_line() {
    let g = graph(vec![node(3, NodeKind::Pipe), node(7, NodeKind::Pump)], vec![]);
    assert_eq!(build_model(&g), Ok(PipelineModel { pump: 7, main: main_line(vec![]) }));
}

#[test]
fn first_pump_in_node_order_is_used() {
    let g = graph(
        vec![node(5, NodeKind::Pipe), node(8, NodeKind::Pump), node(2, NodeKind::Pump), node(6, NodeKind::Fitting)],
        vec![(2, 5), (8, 6)],
    );
    assert_eq!(build_model(&g), Ok(PipelineModel { pump: 8, main: main_line(vec![fitting(6)]) }));
}

#[test]
fn pump_inside_the_line_adds_nothing() {
    let g = graph(
        vec![node(0, NodeKind::Pump), node(1, NodeKind::Pipe), node(2, NodeKind::Pump), node(3, NodeKind::Fitting)],
        vec![(0, 1), (1, 2), (2, 3)],
    );
    assert_eq!(build_model(&g).unwrap().main, main_line(vec![pipe(1), fitting(3)]));
}

#[test]
fn branches_that_never_meet_end_the_line() {
    let g = graph(
        vec![
            node(0, NodeKind::Pump),
            node(1, NodeKind::Pipe),
            node(2, NodeKind::Pipe),
            node(3, NodeKind::Fitting),
            node(4, NodeKind::Pipe),
        ],
        vec![(0, 1), (1, 2), (1, 3), (3, 4)],
    );
    assert_eq!(
        build_model(&g).unwrap().main,
        main_line(vec![pipe(1), open_junction(vec![branch(vec![pipe(2)]), branch(vec![fitting(3), pipe(4)])])])
    );
}

#[test]
fn nested_junctions() {
    // 1 forks to 2 and 5; 2 forks to 3 and 4 which meet at 6; 5 and 6 meet at 7.
    let g = graph(
        vec![
            node(0, NodeKind::Pump),
            node(1, NodeKind::Pipe),
            node(2, NodeKind::Pipe),
            node(3, NodeKind::Pipe),
            node(4, NodeKind::Fitting),
            node(5, NodeKind::Pipe),
            node(6, NodeKind::Pipe),
            node(7, NodeKind::Pipe),
        ],
        vec![(0, 1), (1, 2), (1, 5), (2, 3), (2, 4), (3, 6), (4, 6), (6, 7), (5, 7)],
    );
    assert_eq!(
        build_model(&g).unwrap().main,
        main_line(vec![
            pipe(1),
            junction(vec![
                branch(vec![pipe(2), junction(vec![branch(vec![pipe(3)]), branch(vec![fitting(4)])]), pipe(6)]),
                branch(vec![pipe(5)]),
            ]),
            pipe(7),
        ])
    );
}

#[test]
fn three_way_fork_meets_at_nearest_common_node() {
    let g = graph(
        vec![
            node(0, NodeKind::Pump),
            node(1, NodeKind::Pipe),
            node(2, NodeKind::Pipe),
            node(3, NodeKind::Pipe),
            node(4, NodeKind::Pipe),
            node(5, NodeKind::Fitting),
        ],
        vec![(0, 1), (1, 2), (1, 3), (1, 4), (2, 5), (3, 5), (4, 5)],
    );
    assert_eq!(
        build_model(&g).unwrap().main,
        main_line(vec![
            pipe(1),
            junction(vec![branch(vec![pipe(2)]), branch(vec![pipe(3)]), branch(vec![pipe(4)])]),
            fitting(5),
        ])
    );
}

#[test]
fn branch_that_is_the_meeting_point_is_empty() {
    // 1 feeds 2 directly and through 3; the branches meet at 2.
    let g = graph(
        vec![node(0, NodeKind::Pump), node(1, NodeKind::Pipe), node(2, NodeKind::Pipe), node(3, NodeKind::Fitting)],
        vec![(0, 1), (1, 2), (1, 3), (3, 2)],
    );
    assert_eq!(
        build_model(&g).unwrap().main,
        main_line(vec![pipe(1), junction(vec![branch(vec![]), branch(vec![fitting(3)])]), pipe(2)])
    );
}

#[test]
fn loop_never_ends() {
    let g = graph(
        vec![node(0, NodeKind::Pump), node(1, NodeKind::Pipe), node(2, NodeKind::Pipe)],
        vec![(0, 1), (1, 2), (2, 1)],
    );
    assert_eq!(build_model(&g), Err(ModelError::Endless));
}

#[test]
fn loop_back_into_the_pump_never_ends() {
    let g = graph(vec![node(0, NodeKind::Pump), node(1, NodeKind::Pipe)], vec![(0, 1), (1, 0)]);
    assert_eq!(build_model(&g), Err(ModelError::Endless));
}

#[test]
fn loop_off_the_line_does_not_matter() {
    let g = graph(
        vec![node(0, NodeKind::Pump), node(1, NodeKind::Pipe), node(2, NodeKind::Pipe), node(3, NodeKind::Pipe)],
        vec![(0, 1), (2, 3), (3, 2)],
    );
    assert_eq!(build_model(&g), Ok(PipelineModel { pump: 0, main: main_line(vec![pipe(1)]) }));
}

#[test]
fn graphs_without_loops_always_give_a_model() {
    let graphs = vec![
        graph(vec![node(0, NodeKind::Pump)], vec![]),
        graph(vec![node(0, NodeKind::Pump), node(1, NodeKind::Fitting)], vec![(0, 1)]),
        graph(
            vec![node(0, NodeKind::Pump), node(1, NodeKind::Pipe), node(2, NodeKind::Pipe), node(3, NodeKind::Pipe)],
            vec![(0, 1), (0, 2), (1, 3), (2, 3), (1, 2)],
        ),
        graph(
            vec![node(9, NodeKind::Pipe), node(4, NodeKind::Pump), node(5, NodeKind::Pipe)],
            vec![(4, 9), (4, 5), (9, 5)],
        ),
    ];
    for g in graphs {
        assert!(build_model(&g).is_ok());
    }
}

fn leaves(c: &Component, out: &mut Vec<usize>) {
    match &c.kind {
        ElementKind::Pipe { node } | ElementKind::Fitting { node } => out.push(*node),
        ElementKind::Series(v) | ElementKind::Parallel(v) => {
            for x in v {
                leaves(x, out);
            }
        },
    }
}

fn junctions_have_two_branches(c: &Component) -> bool {
    match &c.kind {
        ElementKind::Pipe { .. } | ElementKind::Fitting { .. } => c.role == Role::Element,
        ElementKind::Series(v) => v.iter().all(junctions_have_two_branches),
        ElementKind::Parallel(v) => {
            v.len() >= 2 && v.iter().all(|b| b.role == Role::Branch && junctions_have_two_branches(b))
        },
    }
}

#[test]
fn model_holds_only_pipes_and_fittings_of_the_graph() {
    let g = graph(
        vec![
            node(0, NodeKind::Pump),
            node(1, NodeKind::Pipe),
            node(2, NodeKind::Pump),
            node(3, NodeKind::Fitting),
            node(4, NodeKind::Pipe),
            node(5, NodeKind::Pipe),
        ],
        vec![(0, 1), (1, 2), (2, 3), (2, 4), (3, 5), (4, 5)],
    );
    let m = build_model(&g).unwrap();
    let mut ids = Vec::new();
    leaves(&m.main, &mut ids);
    assert_eq!(ids, vec![1, 3, 4, 5]);
    assert!(junctions_have_two_branches(&m.main));
    assert_eq!(m.main.role, Role::Main);
}

#[test]
fn kind_names() {
    assert_eq!(pipe(1).kind_name(), "pipe");
    assert_eq!(fitting(1).kind_name(), "fitting");
    assert_eq!(branch(vec![]).kind_name(), "series");
    assert_eq!(junction(vec![]).kind_name(), "parallel");
}

#[test]
fn role_titles() {
    assert_eq!(Role::Element.title(), None);
    assert_eq!(Role::Branch.title(), Some("Ветвь"));
    assert_eq!(Role::Junction.title(), Some("Разветвление"));
    assert_eq!(Role::OpenJunction.title(), Some("Разветвление (без слияния)"));
    assert_eq!(Role::Main.title(), Some("Магистраль"));
}

fn diamond() -> PipeGraph {
    graph(
        vec![
            node(10, NodeKind::Pump),
            node(11, NodeKind::Pipe),
            node(12, NodeKind::Fitting),
            node(13, NodeKind::Pipe),
            node(14, NodeKind::Pipe),
        ],
        vec![(10, 11), (11, 12), (11, 13), (12, 14), (13, 14)],
    )
}

#[test]
fn walk_stops_at_its_end_node() {
    let g = diamond();
    let adj = g.successors();
    let chain = walk_chain(&g, &adj, 1, Some(4), 10).unwrap();
    assert_eq!(
        chain,
        vec![pipe(11), junction(vec![branch(vec![fitting(12)]), branch(vec![pipe(13)])])]
    );
    assert_eq!(walk_chain(&g, &adj, 4, Some(4), 1), Some(vec![]));
}

#[test]
fn walk_needs_enough_steps() {
    let g = diamond();
    let adj = g.successors();
    // pump, pipe 11, fitting 12, and the meeting node 14 that ends the branch: four steps
    assert_eq!(walk_chain(&g, &adj, 0, None, 0), None);
    assert_eq!(walk_chain(&g, &adj, 0, None, 3), None);
    let full = walk_chain(&g, &adj, 0, None, 4).unwrap();
    assert_eq!(full.len(), 3);
    assert_eq!(walk_chain(&g, &adj, 0, None, 25), Some(full));
}
