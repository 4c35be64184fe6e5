use std::collections::HashSet;

use depgraph::commands::{query, Commands};
use depgraph::graph::{DependencyGraph, DependencyGraphCreationError};
use depgraph::node::Node;

fn create_test_node(name: &str, deps: Vec<&str>) -> Node {
    Node::new(
        name.to_string(),
        format!("test/{}", name),
        vec!["src/**/*".to_string()],
        vec!["test/**/*".to_string()],
        deps.into_iter().map(String::from).collect(),
        None,
    )
    .unwrap()
}

fn node_with(name: &str, deps: Vec<&str>, pattern: &str) -> Node {
    Node::new(
        name.to_string(),
        name.to_string(),
        vec![pattern.to_string()],
        vec![],
        deps.into_iter().map(String::from).collect(),
        None,
    )
    .unwrap()
}

fn names(nodes: Vec<Node>) -> HashSet<String> {
    nodes.into_iter().map(|n| n.name).collect()
}

fn set(v: &[&str]) -> HashSet<String> {
    v.iter().map(|s| s.to_string()).collect()
}

#[test]
fn test_graph_creation_success() {
    let nodes = vec![create_test_node("a", vec![]), create_test_node("b", vec!["a"]), create_test_node("c", vec!["b"])];

    let graph = DependencyGraph::new(nodes, false).unwrap();

    assert!(graph.get_node("a").is_some());
    assert!(graph.get_node("b").is_some());
    assert!(graph.get_node("c").is_some());
    assert!(graph.get_node("d").is_none());
}

#[test]
fn test_duplicate_node_name() {
    let nodes = vec![create_test_node("a", vec![]), create_test_node("a", vec![])];

    let err = DependencyGraph::new(nodes, false).err().unwrap();
    assert!(matches!(err, DependencyGraphCreationError::DuplicateNodeName(name) if name == "a"));
}

#[test]
fn test_missing_dependency() {
    let nodes = vec![create_test_node("a", vec!["missing"])];

    let err = DependencyGraph::new(nodes, false).err().unwrap();
    assert!(matches!(err,
        DependencyGraphCreationError::MissingDependency(dep, node, _)
        if dep == "missing" && node == "a"
    ));
}

#[test]
fn test_circular_dependency() {
    let nodes = vec![create_test_node("a", vec!["b"]), create_test_node("b", vec!["c"]), create_test_node("c", vec!["a"])];

    let err = DependencyGraph::new(nodes, false).err().unwrap();
    assert!(matches!(err, DependencyGraphCreationError::CircularDependency(_, _)));
}

#[test]
fn test_cyclical_dependency_allowed() {
    let nodes = vec![create_test_node("a", vec!["b"]), create_test_node("b", vec!["c"]), create_test_node("c", vec!["a"])];

    let graph = DependencyGraph::new(nodes, true).unwrap();
    assert!(graph.get_node("a").is_some());
}

#[test]
fn test_get_dependencies() {
    let nodes = vec![
        create_test_node("a", vec![]),
        create_test_node("b", vec!["a"]),
        create_test_node("c", vec!["b"]),
        create_test_node("d", vec![]),
    ];

    let graph = DependencyGraph::new(nodes, false).unwrap();

    let c_deps = names(graph.get_dependencies("c"));
    assert_eq!(c_deps, set(&["a", "b"]));

    let a_deps = names(graph.get_dependencies("a"));
    assert!(a_deps.is_empty());
}

#[test]
fn test_get_dependents() {
    let nodes = vec![
        create_test_node("a", vec![]),
        create_test_node("b", vec!["a"]),
        create_test_node("c", vec!["b"]),
        create_test_node("d", vec!["a"]),
    ];

    let graph = DependencyGraph::new(nodes, false).unwrap();

    let a_dependents = names(graph.get_dependents("a"));
    assert_eq!(a_dependents, set(&["b", "c", "d"]));

    let c_dependents = names(graph.get_dependents("c"));
    assert!(c_dependents.is_empty());
}

#[test]
fn test_complex_dependency_chain() {
    let nodes = vec![
        create_test_node("a", vec![]),
        create_test_node("b", vec!["a"]),
        create_test_node("c", vec!["b"]),
        create_test_node("d", vec!["b", "c"]),
        create_test_node("e", vec!["a", "d"]),
    ];

    let graph = DependencyGraph::new(nodes, false).unwrap();

    let e_deps = names(graph.get_dependencies("e"));
    assert_eq!(e_deps, set(&["a", "b", "c", "d"]));
}

#[test]
fn test_get_all_nodes() {
    let nodes = vec![create_test_node("a", vec![]), create_test_node("b", vec!["a"])];

    let graph = DependencyGraph::new(nodes, false).unwrap();
    let all_nodes = graph.get_all_nodes();
    assert_eq!(all_nodes.len(), 2);
}

#[test]
fn test_get_affected_nodes() {
    let nodes = vec![create_test_node("a", vec![]), create_test_node("b", vec!["a"]), create_test_node("c", vec!["b"])];

    let graph = DependencyGraph::new(nodes, false).unwrap();

    let affected = graph.get_affected_nodes(&vec!["test/a/src/file.rs".to_string()]);
    assert_eq!(HashSet::<String>::from_iter(affected.clone()), set(&["a", "b", "c"]));

    let affected = graph.get_affected_nodes(&vec!["test/a/src/file1.rs".to_string()]);
    assert_eq!(HashSet::<String>::from_iter(affected.clone()), set(&["a", "b", "c"]));

    let affected = graph.get_affected_nodes(&vec!["test/other/file.rs".to_string()]);
    assert!(affected.is_empty());
}

fn chain_abc() -> Vec<Node> {
    vec![node_with("a", vec![], "src/**"), node_with("b", vec!["a"], "lib/**"), node_with("c", vec!["b"], "app/**")]
}

#[test]
fn affected_chain_scenario() {
    let graph = DependencyGraph::new(chain_abc(), false).unwrap();
    let affected = graph.get_affected_nodes(&vec!["a/src/x.txt".to_string()]);
    assert_eq!(affected.len(), 3);
    assert_eq!(HashSet::<String>::from_iter(affected), set(&["a", "b", "c"]));
    assert!(graph.get_affected_nodes(&vec!["unmatched/file.txt".to_string()]).is_empty());
}

#[test]
fn affected_from_middle_of_chain() {
    let graph = DependencyGraph::new(chain_abc(), false).unwrap();
    let affected = graph.get_affected_nodes(&vec!["b/lib/y.rs".to_string(), "nowhere".to_string()]);
    assert_eq!(HashSet::<String>::from_iter(affected), set(&["b", "c"]));
    assert!(graph.get_affected_nodes(&vec![]).is_empty());
}

#[test]
fn affected_from_owner_marks() {
    let graph = DependencyGraph::new(chain_abc(), false).unwrap();
    let affected = graph.affected_from_owners(&vec![false, true, false]);
    assert_eq!(HashSet::<String>::from_iter(affected), set(&["b", "c"]));
    assert!(graph.affected_from_owners(&vec![false, false, false]).is_empty());
    let all = graph.affected_from_owners(&vec![true, false, true]);
    assert_eq!(all.len(), 3);
}

#[test]
fn cycle_scenario() {
    let nodes = || vec![create_test_node("a", vec!["b"]), create_test_node("b", vec!["c"]), create_test_node("c", vec!["a"])];
    match DependencyGraph::new(nodes(), false) {
        Err(DependencyGraphCreationError::CircularDependency(path, first)) => {
            let parts: Vec<&str> = path.split(" -> ").collect();
            assert_eq!(parts.len(), 3);
            assert_eq!(parts[0], first);
            assert_eq!(HashSet::<String>::from_iter(parts.iter().map(|s| s.to_string())), set(&["a", "b", "c"]));
        }
        _ => panic!("expected a cycle"),
    }
    let graph = DependencyGraph::new(nodes(), true).unwrap();
    let down = names(graph.get_dependents("a"));
    assert!(down.contains("b") && down.contains("c"));
    assert_eq!(down, set(&["a", "b", "c"]));
    assert_eq!(graph.get_all_nodes().len(), 3);
}

#[test]
fn self_dependency_is_a_cycle() {
    let nodes = vec![create_test_node("a", vec!["a"])];
    match DependencyGraph::new(nodes, false) {
        Err(DependencyGraphCreationError::CircularDependency(path, first)) => {
            assert_eq!(path, "a");
            assert_eq!(first, "a");
        }
        _ => panic!("expected a cycle"),
    }
}

#[test]
fn missing_dependency_lists_known_names() {
    let nodes = vec![create_test_node("a", vec![]), create_test_node("b", vec!["a", "zz"]), create_test_node("c", vec![])];
    match DependencyGraph::new(nodes, false) {
        Err(DependencyGraphCreationError::MissingDependency(dep, node, known)) => {
            assert_eq!(dep, "zz");
            assert_eq!(node, "b");
            assert_eq!(known, "a, b, c");
        }
        _ => panic!("expected a missing dependency"),
    }
}

#[test]
fn duplicate_checked_before_missing() {
    let nodes = vec![create_test_node("a", vec!["nope"]), create_test_node("b", vec![]), create_test_node("b", vec![])];
    let err = DependencyGraph::new(nodes, false).err().unwrap();
    assert!(matches!(err, DependencyGraphCreationError::DuplicateNodeName(name) if name == "b"));
}

#[test]
fn empty_declarations_build() {
    let graph = DependencyGraph::new(vec![], false).unwrap();
    assert!(graph.get_all_nodes().is_empty());
    assert!(graph.get_dependents("a").is_empty());
    assert!(graph.get_affected_nodes(&vec!["x".to_string()]).is_empty());
}

#[test]
fn upstream_downstream_inverse_example() {
    let nodes = vec![
        create_test_node("a", vec![]),
        create_test_node("b", vec!["a"]),
        create_test_node("c", vec!["b"]),
        create_test_node("d", vec!["a"]),
    ];
    let graph = DependencyGraph::new(nodes, false).unwrap();
    for x in ["a", "b", "c", "d"] {
        for y in ["a", "b", "c", "d"] {
            let down = names(graph.get_dependents(x)).contains(y);
            let up = names(graph.get_dependencies(y)).contains(x);
            assert_eq!(down, up);
        }
    }
    assert!(graph.get_dependencies("unknown").is_empty());
}

#[test]
fn snapshot_restores_same_answers() {
    let graph = DependencyGraph::new(chain_abc(), false).unwrap();
    let restored = DependencyGraph::restore(graph.snapshot()).unwrap();
    for name in ["a", "b", "c", "x"] {
        assert_eq!(names(graph.get_dependents(name)), names(restored.get_dependents(name)));
        assert_eq!(names(graph.get_dependencies(name)), names(restored.get_dependencies(name)));
    }
    let changed = vec!["a/src/x.txt".to_string()];
    assert_eq!(
        HashSet::<String>::from_iter(graph.get_affected_nodes(&changed)),
        HashSet::<String>::from_iter(restored.get_affected_nodes(&changed))
    );
}

#[test]
fn query_resolves_full_records() {
    let graph = DependencyGraph::new(chain_abc(), false).unwrap();
    let nodes = query(&graph, &vec!["b/lib/q.rs".to_string()]);
    assert_eq!(names(nodes.clone()), set(&["b", "c"]));
    for n in nodes {
        let stored = graph.get_node(&n.name).unwrap();
        assert_eq!(n.path, stored.path);
        assert_eq!(n.included_paths, stored.included_paths);
        assert_eq!(n.dependencies, stored.dependencies);
    }
    let same = depgraph::commands::query::get_affected_nodes(&graph, &vec!["c/app/m.rs".to_string()]);
    assert_eq!(names(same), set(&["c"]));
}

#[test]
fn commands_hold_their_arguments() {
    let cmd = Commands::Query { graph_artifact_path: "g.json".to_string(), files: vec!["a".to_string()] };
    match cmd {
        Commands::Query { graph_artifact_path, files } => {
            assert_eq!(graph_artifact_path, "g.json");
            assert_eq!(files.len(), 1);
        }
        Commands::Prepare { .. } => panic!("wrong command"),
    }
}
