use concurrent::flow::EdgeKind;
use concurrent::ir::Node;
use concurrent::{Graph, Ir, IrNode, Unvalidated};

fn build(nodes: Vec<Node>) -> concurrent::flow::ExecutionGraph {
    Graph::<IrNode, Ir, Unvalidated>::new(nodes)
        .validate()
        .unwrap()
        .to_execution_graph()
}

fn index_of(g: &concurrent::flow::ExecutionGraph, name: &str) -> usize {
    g.nodes.iter().position(|n| n == name).unwrap()
}

fn has_edge(g: &concurrent::flow::ExecutionGraph, from: &str, to: &str, kind: EdgeKind) -> bool {
    let a = index_of(g, from);
    let b = index_of(g, to);
    g.edges.iter().any(|e| e.0 == a && e.1 == b && e.2 == kind)
}

#[test]
fn sequence_with_parallel_block_fans_out_and_in() {
    // Sequence[a, Parallel[b, c], d] gives a->b, a->c, b->d, c->d and
    // no direct a->d.
    let g = build(vec![Node::Sequence(vec![
        Node::Atomic("a".to_string(), vec![], false),
        Node::Par(vec![
            Node::Atomic("b".to_string(), vec![], false),
            Node::Atomic("c".to_string(), vec![], false),
        ]),
        Node::Atomic("d".to_string(), vec![], false),
    ])]);

    assert_eq!(g.nodes, vec!["a", "b", "c", "d"]);
    assert!(has_edge(&g, "a", "b", EdgeKind::Control));
    assert!(has_edge(&g, "a", "c", EdgeKind::Control));
    assert!(has_edge(&g, "b", "d", EdgeKind::Control));
    assert!(has_edge(&g, "c", "d", EdgeKind::Control));
    assert!(!has_edge(&g, "a", "d", EdgeKind::Control));
    assert_eq!(g.edges.len(), 4);
}

#[test]
fn terminal_task_has_no_structural_successor() {
    // Sequence[Atomic(x, terminal), Atomic(y)] draws no edge x->y.
    let g = build(vec![Node::Sequence(vec![
        Node::Atomic("x".to_string(), vec![], true),
        Node::Atomic("y".to_string(), vec![], false),
    ])]);

    assert_eq!(g.nodes, vec!["x", "y"]);
    assert!(g.edges.is_empty());
}

#[test]
fn dependency_edges_are_labeled_and_independent_of_structure() {
    let g = build(vec![
        Node::Atomic("s0".to_string(), vec![], false),
        Node::Atomic("s1".to_string(), vec![Node::Dep("s0".to_string())], false),
    ]);

    assert_eq!(g.nodes, vec!["s0", "s1"]);
    assert!(has_edge(&g, "s0", "s1", EdgeKind::Control));
    assert!(has_edge(&g, "s0", "s1", EdgeKind::Dep));
    assert_eq!(g.edges.len(), 2);
}

#[test]
fn duplicate_names_share_one_node() {
    let g = build(vec![
        Node::Atomic("a".to_string(), vec![], false),
        Node::Atomic("b".to_string(), vec![], false),
        Node::Atomic("a".to_string(), vec![], false),
    ]);

    assert_eq!(g.nodes, vec!["a", "b"]);
    assert!(has_edge(&g, "a", "b", EdgeKind::Control));
    assert!(has_edge(&g, "b", "a", EdgeKind::Control));
}

#[test]
fn bare_dependency_branch_contributes_no_successors() {
    // A parallel branch that is only a dependency name neither creates a
    // node nor hands predecessors on to what follows.
    let g = build(vec![
        Node::Par(vec![
            Node::Atomic("a".to_string(), vec![], false),
            Node::Dep("a".to_string()),
        ]),
        Node::Atomic("b".to_string(), vec![], false),
    ]);

    assert_eq!(g.nodes, vec!["a", "b"]);
    assert!(has_edge(&g, "a", "b", EdgeKind::Control));
    assert_eq!(g.edges.len(), 1);
}
