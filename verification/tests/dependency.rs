use openclaw::dependency::{DependencyError, PlanDependencyResolver};
use openclaw::planner_types::{OcPlanTask, OcTaskComplexity};

fn make_task(title: &str, depends_on: Vec<&str>, order_index: i64) -> OcPlanTask {
    OcPlanTask {
        id: uuid::Uuid::new_v4().as_u128(),
        plan_id: uuid::Uuid::new_v4().as_u128(),
        issue_id: None,
        title: title.to_string(),
        description: String::new(),
        prompt: None,
        estimated_complexity: OcTaskComplexity::Low,
        depends_on: depends_on.into_iter().map(String::from).collect(),
        order_index,
        created_at: "2024-01-01T00:00:00Z".to_string(),
    }
}

#[test]
fn test_no_deps_returns_original_order() {
    let t1 = make_task("A", vec![], 0);
    let t2 = make_task("B", vec![], 1);
    let t3 = make_task("C", vec![], 2);
    let ids = [t1.id, t2.id, t3.id];

    let result = PlanDependencyResolver::resolve(&[t1, t2, t3]).unwrap();
    assert!(result.edges.is_empty());
    assert_eq!(result.ordered_task_ids.len(), 3);
    assert_eq!(result.ordered_task_ids, ids.to_vec());
}

#[test]
fn test_simple_chain() {
    let t1 = make_task("DB şeması", vec![], 0);
    let t2 = make_task("API endpoint", vec!["DB şeması"], 1);
    let t3 = make_task("Frontend UI", vec!["API endpoint"], 2);

    let ids = [t1.id, t2.id, t3.id];
    let result = PlanDependencyResolver::resolve(&[t1, t2, t3]).unwrap();

    assert_eq!(result.ordered_task_ids[0], ids[0]);
    assert_eq!(result.ordered_task_ids[1], ids[1]);
    assert_eq!(result.ordered_task_ids[2], ids[2]);
    assert_eq!(result.edges.len(), 2);
}

#[test]
fn test_diamond_dependency() {
    let ta = make_task("A", vec![], 0);
    let tb = make_task("B", vec!["A"], 1);
    let tc = make_task("C", vec!["A"], 2);
    let td = make_task("D", vec!["B", "C"], 3);
    let d_id = td.id;

    let result = PlanDependencyResolver::resolve(&[ta.clone(), tb, tc, td]).unwrap();

    assert_eq!(result.ordered_task_ids[0], ta.id);
    assert_eq!(result.ordered_task_ids.len(), 4);
    assert_eq!(result.edges.len(), 4);
    assert_eq!(result.ordered_task_ids[3], d_id);
}

#[test]
fn test_cycle_detected() {
    let t1 = make_task("A", vec!["B"], 0);
    let t2 = make_task("B", vec!["A"], 1);

    let result = PlanDependencyResolver::resolve(&[t1, t2]);
    assert!(matches!(result, Err(DependencyError::CycleDetected)));
}

#[test]
fn test_unknown_dep_title_skipped() {
    let t1 = make_task("A", vec!["VarOlmayanTask"], 0);
    let result = PlanDependencyResolver::resolve(&[t1]).unwrap();
    assert!(result.edges.is_empty());
    assert_eq!(result.ordered_task_ids.len(), 1);
}

#[test]
fn test_self_dependency_skipped() {
    let t1 = make_task("A", vec!["A"], 0);
    let result = PlanDependencyResolver::resolve(&[t1]).unwrap();
    assert!(result.edges.is_empty());
}

#[test]
fn edges_are_sorted_and_point_at_dependencies() {
    let ta = make_task("A", vec![], 0);
    let tb = make_task("B", vec!["A", "A"], 1);
    let (a, b) = (ta.id, tb.id);
    let edges = PlanDependencyResolver::declared_edge_list(&[ta, tb]);
    assert_eq!(edges, vec![(b, a)]);
}

#[test]
fn ready_tasks_keep_their_order_index() {
    // Both tasks are free; the one with the smaller order index runs first.
    let t1 = make_task("Late", vec![], 5);
    let t2 = make_task("Early", vec![], 1);
    let (late, early) = (t1.id, t2.id);
    let result = PlanDependencyResolver::resolve(&[t1, t2]).unwrap();
    assert_eq!(result.ordered_task_ids, vec![early, late]);
}

#[test]
fn longer_cycle_detected() {
    let t1 = make_task("A", vec!["C"], 0);
    let t2 = make_task("B", vec!["A"], 1);
    let t3 = make_task("C", vec!["B"], 2);
    let t4 = make_task("D", vec![], 3);
    assert_eq!(
        PlanDependencyResolver::resolve(&[t1, t2, t3, t4]).err(),
        Some(DependencyError::CycleDetected)
    );
}

#[test]
fn batches_follow_their_last_dependency() {
    let ta = make_task("A", vec![], 0);
    let tb = make_task("B", vec!["A"], 3);
    let tc = make_task("C", vec![], 2);
    let td = make_task("D", vec!["C"], 1);
    let (a, b, c, d) = (ta.id, tb.id, tc.id, td.id);
    let result = PlanDependencyResolver::resolve(&[ta, tb, tc, td]).unwrap();
    // D's order index is smaller than B's, but its dependency C is taken after A.
    assert_eq!(result.ordered_task_ids, vec![a, c, b, d]);
}

#[test]
fn equal_order_index_in_a_batch_goes_by_id() {
    let mut x = make_task("X", vec![], 0);
    let mut b = make_task("B", vec!["X"], 5);
    let mut c = make_task("C", vec!["X"], 5);
    x.id = 100;
    b.id = 30;
    c.id = 20;
    let result = PlanDependencyResolver::resolve(&[x, b, c]).unwrap();
    assert_eq!(result.ordered_task_ids, vec![100, 20, 30]);
    assert_eq!(result.edges, vec![(20, 100), (30, 100)]);
}

#[test]
fn duplicate_ids_are_refused() {
    let mut t1 = make_task("A", vec![], 0);
    let t2 = make_task("B", vec![], 1);
    t1.id = t2.id;
    assert!(matches!(PlanDependencyResolver::resolve(&[t1, t2]), Err(DependencyError::CycleDetected)));
}
