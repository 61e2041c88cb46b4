use sludge::dependency_graph::{DependencyError, DependencyGraph};

fn names<T>(graph: &DependencyGraph<T>) -> Vec<String> {
    graph.sorted().into_iter().map(|(name, _)| name.to_string()).collect()
}

#[test]
fn dependency_graph_starts_clean_and_empty() {
    let mut graph: DependencyGraph<u8> = DependencyGraph::new();
    assert!(!graph.is_dirty());
    assert_eq!(graph.update(), Ok(false));
    assert!(graph.sorted().is_empty());
    assert_eq!(
        graph.insert(3, "c", &["a"]),
        Err(DependencyError::NoSuchDependency("a".to_string()))
    );
}

#[test]
fn dependency_graph_sorted_after_update() {
    let mut graph = DependencyGraph::new();
    assert_eq!(graph.insert(1, "a", &[]), Ok(None));
    assert_eq!(graph.insert(2, "b", &["a"]), Ok(None));
    assert_eq!(graph.insert(3, "c", &["b", "a"]), Ok(None));
    assert!(graph.is_dirty());
    assert_eq!(graph.update(), Ok(true));
    assert!(!graph.is_dirty());
    assert_eq!(names(&graph), vec!["a", "b", "c"]);
    let values: Vec<i32> = graph.sorted().into_iter().map(|(_, v)| *v).collect();
    assert_eq!(values, vec![1, 2, 3]);
    assert_eq!(graph.update(), Ok(false));
}

#[test]
fn dependency_graph_missing_dependency_is_named() {
    let mut graph = DependencyGraph::new();
    assert_eq!(graph.insert(1, "a", &[]), Ok(None));
    assert_eq!(
        graph.insert(2, "b", &["a", "nope"]),
        Err(DependencyError::NoSuchDependency("nope".to_string()))
    );
}

#[test]
fn dependency_graph_reinsert_hands_back_old_value() {
    let mut graph = DependencyGraph::new();
    assert_eq!(graph.insert("first", "sys", &[]), Ok(None));
    assert_eq!(graph.insert("second", "sys", &[]), Ok(Some("first")));
    assert_eq!(graph.update(), Ok(true));
    let values: Vec<&str> = graph.sorted().into_iter().map(|(_, v)| *v).collect();
    assert_eq!(values, vec!["second"]);
}

#[test]
fn dependency_graph_self_dependency_is_a_cycle() {
    let mut graph = DependencyGraph::new();
    assert_eq!(graph.insert(1, "a", &[]), Ok(None));
    assert_eq!(graph.insert(2, "loop", &["loop"]), Ok(None));
    assert_eq!(graph.update(), Err(DependencyError::Cycle("loop".to_string())));
    assert!(graph.is_dirty());
}
