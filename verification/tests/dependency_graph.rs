use std::collections::HashSet;

use openclaw::dependency_graph::DependencyGraph;

fn new_id() -> u128 {
    uuid::Uuid::new_v4().as_u128()
}

#[test]
fn test_ready_tasks_no_deps() {
    let mut graph = DependencyGraph::new();
    let t1 = new_id();
    let t2 = new_id();
    graph.add_task(t1);
    graph.add_task(t2);

    let ready = graph.ready_tasks(&HashSet::new());
    assert_eq!(ready.len(), 2);
}

#[test]
fn test_ready_tasks_with_dep() {
    let mut graph = DependencyGraph::new();
    let t1 = new_id();
    let t2 = new_id();
    graph.add_dependency(t2, t1);

    let ready = graph.ready_tasks(&HashSet::new());
    assert_eq!(ready.len(), 1);
    assert!(ready.contains(&t1));

    let mut completed = HashSet::new();
    completed.insert(t1);
    let ready2 = graph.ready_tasks(&completed);
    assert!(ready2.contains(&t2));
}

#[test]
fn test_cycle_detection() {
    let mut graph = DependencyGraph::new();
    let t1 = new_id();
    let t2 = new_id();
    graph.add_dependency(t1, t2);
    graph.add_dependency(t2, t1);
    assert!(graph.has_cycle());
}

#[test]
fn test_no_cycle() {
    let mut graph = DependencyGraph::new();
    let t1 = new_id();
    let t2 = new_id();
    let t3 = new_id();
    graph.add_dependency(t2, t1);
    graph.add_dependency(t3, t2);
    assert!(!graph.has_cycle());
}

#[test]
fn test_blocking_tasks() {
    let mut graph = DependencyGraph::new();
    let t1 = new_id();
    let t2 = new_id();
    graph.add_dependency(t2, t1);

    let blocking = graph.blocking_tasks(t2, &HashSet::new());
    assert_eq!(blocking, vec![t1]);

    let mut completed = HashSet::new();
    completed.insert(t1);
    let blocking2 = graph.blocking_tasks(t2, &completed);
    assert!(blocking2.is_empty());
}

#[test]
fn self_dependency_is_a_cycle() {
    let mut graph = DependencyGraph::new();
    graph.add_dependency(7, 7);
    assert!(graph.has_cycle());
}

#[test]
fn longer_cycle_is_found() {
    let mut graph = DependencyGraph::new();
    graph.add_dependency(1, 2);
    graph.add_dependency(2, 3);
    graph.add_dependency(3, 1);
    graph.add_task(4);
    assert!(graph.has_cycle());
}

#[test]
fn completed_task_is_not_ready_again() {
    let mut graph = DependencyGraph::new();
    graph.add_task(1);
    graph.add_dependency(2, 1);
    let mut completed = HashSet::new();
    completed.insert(1u128);
    let ready = graph.ready_tasks(&completed);
    assert_eq!(ready, vec![2]);
}

#[test]
fn ready_agrees_with_blocking() {
    let mut graph = DependencyGraph::new();
    graph.add_dependency(3, 1);
    graph.add_dependency(3, 2);
    graph.add_task(4);
    let mut completed = HashSet::new();
    completed.insert(1u128);
    let ready = graph.ready_tasks(&completed);
    for t in [2u128, 3, 4] {
        let blocked = !graph.blocking_tasks(t, &completed).is_empty();
        assert_eq!(ready.contains(&t), !blocked);
    }
    assert_eq!(graph.blocking_tasks(3, &completed), vec![2]);
}

#[test]
fn unknown_task_is_blocked_by_nothing() {
    let graph = DependencyGraph::new();
    assert!(graph.blocking_tasks(9, &HashSet::new()).is_empty());
    assert!(graph.ready_tasks(&HashSet::new()).is_empty());
    assert!(!graph.has_cycle());
}

#[test]
fn default_graph_is_empty() {
    let graph = DependencyGraph::default();
    assert!(graph.ready_tasks(&HashSet::new()).is_empty());
    assert!(!graph.has_cycle());
}
