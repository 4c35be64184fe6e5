use depgraph::node::{join_path, path_verdict, Node, NodeCreationError};

fn strings(v: &[&str]) -> Vec<String> {
    v.iter().map(|s| s.to_string()).collect()
}

#[test]
fn test_node_creation_success() {
    let mut meta = serde_json::Map::new();
    meta.insert("key".to_string(), serde_json::Value::String("value".to_string()));
    let node = Node::new(
        "test-node".to_string(),
        "/path/to/node".to_string(),
        strings(&["src/**/*.rs"]),
        strings(&["src/excluded"]),
        strings(&["dep1"]),
        Some(serde_json::Value::Object(meta)),
    )
    .unwrap();

    assert_eq!(node.name, "test-node");
    assert_eq!(node.path, "/path/to/node");
    assert_eq!(node.included_paths, strings(&["src/**/*.rs"]));
    assert_eq!(node.excluded_paths, strings(&["src/excluded"]));
    assert_eq!(node.dependencies, vec!["dep1"]);
    assert_eq!(node.metadata.unwrap()["key"], "value");
}

#[test]
fn test_node_creation_no_included_paths() {
    let result = Node::new(
        "test-node".to_string(),
        "/path/to/node".to_string(),
        vec![],
        strings(&["src/excluded"]),
        strings(&["dep1"]),
        None,
    );

    assert!(matches!(result, Err(NodeCreationError::NoIncludedPaths(name)) if name == "test-node"));
}

#[test]
fn test_includes_path() {
    let node = Node::new(
        "test".to_string(),
        "test".to_string(),
        strings(&["src/**", "test/*.rs"]),
        strings(&["src/excluded/**"]),
        vec![],
        None,
    )
    .unwrap();

    assert!(node.includes_path("test/src/file.rs"));
    assert!(node.includes_path("test/test/test.rs"));
    assert!(!node.includes_path("test/src/excluded/file.rs"));
    assert!(!node.includes_path("test/other/file.rs"));
}

#[test]
fn test_includes_path_no_excludes() {
    let node = Node::new("test".to_string(), "test".to_string(), strings(&["src/**"]), vec![], vec![], None).unwrap();

    assert!(node.includes_path("test/src/any/path.rs"));
    assert!(!node.includes_path("test/other/path.rs"));
}

#[test]
fn test_includes_path_invalid_pattern() {
    let node = Node::new("test".to_string(), "test".to_string(), strings(&["[invalid"]), vec![], vec![], None).unwrap();

    assert!(!node.includes_path("test/anything.rs"));
}

#[test]
fn exclude_wins_over_include() {
    let node = Node::new(
        "n".to_string(),
        "".to_string(),
        strings(&["src/**"]),
        strings(&["src/generated/**"]),
        vec![],
        None,
    )
    .unwrap();
    assert!(node.includes_path("src/main.rs"));
    assert!(!node.includes_path("src/generated/x.rs"));
}

#[test]
fn malformed_exclude_does_not_block() {
    let node = Node::new("n".to_string(), "base".to_string(), strings(&["**"]), strings(&["[bad"]), vec![], None).unwrap();
    assert!(node.includes_path("base/a.rs"));
}

#[test]
fn join_path_cases() {
    assert_eq!(join_path("test", "src/**"), "test/src/**");
    assert_eq!(join_path("test/", "src/**"), "test/src/**");
    assert_eq!(join_path("", "src/**"), "src/**");
    assert_eq!(join_path("test", "/abs/**"), "/abs/**");
    assert_eq!(join_path("test", ""), "test/");
}

#[test]
fn path_verdict_cases() {
    assert!(path_verdict(&vec![None, Some(true)], &vec![Some(false), None]));
    assert!(!path_verdict(&vec![Some(true)], &vec![Some(true)]));
    assert!(!path_verdict(&vec![None, Some(false)], &vec![]));
    assert!(!path_verdict(&vec![], &vec![]));
}

#[test]
fn duplicate_keeps_content() {
    let node = Node::new("n".to_string(), "p".to_string(), strings(&["a"]), strings(&["b"]), strings(&["d"]), Some(serde_json::Value::Bool(true))).unwrap();
    let copy = node.duplicate();
    assert_eq!(copy.name, "n");
    assert_eq!(copy.path, "p");
    assert_eq!(copy.included_paths, strings(&["a"]));
    assert_eq!(copy.excluded_paths, strings(&["b"]));
    assert_eq!(copy.dependencies, strings(&["d"]));
    assert_eq!(copy.metadata, Some(serde_json::Value::Bool(true)));
}
