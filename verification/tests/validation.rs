use concurrent::ir::Node;
use concurrent::validate::{
    check_circular_dependencies, check_missing_dependencies, collect_all_nodes, count_connections,
    validate, NodeMap,
};
use concurrent::{Graph, Ir, Unvalidated, ValidationErrorKind};

#[test]
fn validate_test_missing_dependency() {
    let mut nodes = NodeMap::new();
    nodes.insert("s0".to_string(), (vec!["s1".to_string()], false));

    let result = check_missing_dependencies(&nodes);
    assert!(result.is_err());
    assert_eq!(
        result.unwrap_err()[0].kind,
        ValidationErrorKind::MissingDependency
    );
}

#[test]
fn validate_test_circular_dependency() {
    let mut nodes = NodeMap::new();
    nodes.insert("s0".to_string(), (vec!["s1".to_string()], false));
    nodes.insert("s1".to_string(), (vec!["s2".to_string()], false));
    nodes.insert("s2".to_string(), (vec!["s0".to_string()], false));

    let result = check_circular_dependencies(&nodes);
    assert!(result.is_err());
    assert_eq!(
        result.unwrap_err()[0].kind,
        ValidationErrorKind::CircularDependency
    );
}

#[test]
fn validate_test_valid_graph() {
    let result = Graph::<Node, Ir, Unvalidated>::new(vec![
        Node::Atomic("s0".to_string(), vec![], false),
        Node::Atomic("s1".to_string(), vec![Node::Dep("s0".to_string())], false),
    ])
    .validate();

    assert!(result.is_ok());
}

#[test]
fn validator_test_missing_dependency() {
    let mut nodes = NodeMap::new();
    nodes.insert("s0".to_string(), (vec!["s1".to_string()], false));
    // s1 doesn't exist

    let result = check_missing_dependencies(&nodes);
    assert!(result.is_err());
    let errors = result.unwrap_err();
    assert_eq!(errors.len(), 1);
    assert_eq!(errors[0].kind, ValidationErrorKind::MissingDependency);
}

#[test]
fn validator_test_circular_dependency() {
    let mut nodes = NodeMap::new();
    nodes.insert("s0".to_string(), (vec!["s1".to_string()], false));
    nodes.insert("s1".to_string(), (vec!["s2".to_string()], false));
    nodes.insert("s2".to_string(), (vec!["s0".to_string()], false));

    let result = check_circular_dependencies(&nodes);
    assert!(result.is_err());
    let errors = result.unwrap_err();
    assert_eq!(errors.len(), 1);
    assert_eq!(errors[0].kind, ValidationErrorKind::CircularDependency);
}

#[test]
fn test_terminal_node_connection_count() {
    let mut nodes = NodeMap::new();
    nodes.insert("s6".to_string(), (vec![], true)); // Terminal node
    nodes.insert("s8".to_string(), (vec!["s6".to_string()], false));
    nodes.insert("s9".to_string(), (vec!["s6".to_string()], false));
    nodes.insert(
        "sa".to_string(),
        (vec!["s8".to_string(), "s9".to_string()], false),
    );

    // sa should have 2 connections (s8 and s9), not 3
    // because s6 is terminal and shouldn't be counted transitively
    let connections = count_connections("sa", &nodes);
    assert_eq!(connections, 2);
}

#[test]
fn validator_test_valid_graph() {
    let result = validate(&concurrent::ir::Graph::new(vec![
        Node::Atomic("s0".to_string(), vec![], false),
        Node::Atomic("s1".to_string(), vec![Node::Dep("s0".to_string())], false),
    ]));

    assert!(result.is_ok());
}

#[test]
fn missing_dependency_names_both_tasks() {
    let result = validate(&concurrent::ir::Graph::new(vec![Node::Atomic(
        "a".to_string(),
        vec![Node::Dep("b".to_string())],
        false,
    )]));

    let errors = result.unwrap_err();
    assert_eq!(errors.len(), 1);
    assert_eq!(errors[0].kind, ValidationErrorKind::MissingDependency);
    assert_eq!(
        errors[0].message,
        "Node 'a' depends on 'b' which doesn't exist"
    );
}

#[test]
fn circular_dependency_reports_one_full_cycle() {
    let result = validate(&concurrent::ir::Graph::new(vec![
        Node::Atomic("s0".to_string(), vec![Node::Dep("s1".to_string())], false),
        Node::Atomic("s1".to_string(), vec![Node::Dep("s2".to_string())], false),
        Node::Atomic("s2".to_string(), vec![Node::Dep("s0".to_string())], false),
    ]));

    let errors = result.unwrap_err();
    assert_eq!(errors.len(), 1);
    assert_eq!(errors[0].kind, ValidationErrorKind::CircularDependency);
    assert_eq!(
        errors[0].message,
        "Circular dependency detected: s0 -> s1 -> s2 -> s0"
    );
}

#[test]
fn duplicate_names_overwrite_earlier_entries() {
    let nodes = collect_all_nodes(&vec![
        Node::Atomic("a".to_string(), vec![Node::Dep("b".to_string())], false),
        Node::Atomic("b".to_string(), vec![], false),
        Node::Atomic("a".to_string(), vec![], true),
    ]);
    assert_eq!(nodes.len(), 2);
    assert_eq!(count_connections("a", &nodes), 0);
}

#[test]
fn unknown_dependency_counts_as_connection() {
    let mut nodes = NodeMap::new();
    nodes.insert("x".to_string(), (vec!["ghost".to_string()], false));
    assert_eq!(count_connections("x", &nodes), 1);
}
