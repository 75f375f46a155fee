use openclaw::dependency_graph::DependencyGraph;
use openclaw::ids::uuid_to_text;
use openclaw::orchestrator::{
    active_run_ids, complete_task, compose_task_prompt, fail_task, graph_from_rows, hook_action, initial_task_states,
    HookAction, NoopOcHook, OrchestratorError,
};
use openclaw::orchestrator_types::{OcOrchestrationRunStatus, OcTaskRunState, OcTaskRunStatus};

fn state(task_id: u128, status: OcTaskRunStatus, blocked_by: Vec<u128>) -> OcTaskRunState {
    OcTaskRunState {
        id: task_id + 1000,
        run_id: 1,
        task_id,
        workspace_id: None,
        status,
        blocked_by,
        context_summary: None,
        started_at: None,
        completed_at: None,
        created_at: "t0".into(),
    }
}

fn chain_graph() -> DependencyGraph {
    // 2 depends on 1; 3 depends on 1 and 2.
    let mut g = DependencyGraph::new();
    g.add_task(1);
    g.add_dependency(2, 1);
    g.add_dependency(3, 1);
    g.add_dependency(3, 2);
    g
}

#[test]
fn graph_from_stored_rows() {
    let a = uuid_to_text(1);
    let b = uuid_to_text(2);
    let g = graph_from_rows(&vec![a.clone(), b.clone()], &vec![(b.clone(), a.clone())]).unwrap();
    assert!(!g.has_cycle());
    assert_eq!(g.blocking_tasks(2, &Default::default()), vec![1]);

    let cyclic = graph_from_rows(&vec![a.clone(), b.clone()], &vec![(b.clone(), a.clone()), (a.clone(), b.clone())]);
    assert!(matches!(cyclic, Err(OrchestratorError::CyclicDependency)));

    let bad = graph_from_rows(&vec!["nope".to_string()], &vec![]);
    assert!(matches!(bad, Err(OrchestratorError::Other(_))));
}

#[test]
fn initial_states_block_on_dependencies() {
    let g = chain_graph();
    let states = initial_task_states(&g, &vec![1, 2, 3]);
    assert_eq!(states[0].status, OcTaskRunStatus::Pending);
    assert!(states[0].blocked_by.is_empty());
    assert_eq!(states[1].status, OcTaskRunStatus::Blocked);
    assert_eq!(states[1].blocked_by, vec![1]);
    assert_eq!(states[2].status, OcTaskRunStatus::Blocked);
    let mut b = states[2].blocked_by.clone();
    b.sort();
    assert_eq!(b, vec![1, 2]);
}

#[test]
fn completing_unblocks_ready_tasks_only() {
    let g = chain_graph();
    let mut states = vec![
        state(1, OcTaskRunStatus::Running, vec![]),
        state(2, OcTaskRunStatus::Blocked, vec![1]),
        state(3, OcTaskRunStatus::Blocked, vec![1, 2]),
    ];
    let (unblocked, finished) = complete_task(&mut states, &g, 1, Some("did 1".into()), "t1".into());
    assert_eq!(unblocked, vec![2]);
    assert!(!finished);
    assert_eq!(states[0].status, OcTaskRunStatus::Completed);
    assert_eq!(states[0].completed_at.as_deref(), Some("t1"));
    assert_eq!(states[0].context_summary.as_deref(), Some("did 1"));
    assert_eq!(states[1].status, OcTaskRunStatus::Pending);
    assert!(states[1].blocked_by.is_empty());
    assert_eq!(states[2].status, OcTaskRunStatus::Blocked);

    states[1].status = OcTaskRunStatus::Running;
    let (unblocked, finished) = complete_task(&mut states, &g, 2, None, "t2".into());
    assert_eq!(unblocked, vec![3]);
    assert!(!finished);

    let (unblocked, finished) = complete_task(&mut states, &g, 3, None, "t3".into());
    assert!(unblocked.is_empty());
    assert!(finished);
    assert_eq!(states[0].status, OcTaskRunStatus::Completed);
}

#[test]
fn failing_a_task_fails_the_run() {
    let mut states = vec![state(1, OcTaskRunStatus::Running, vec![]), state(2, OcTaskRunStatus::Blocked, vec![1])];
    let status = fail_task(&mut states, 1, "t1".into());
    assert_eq!(status, OcOrchestrationRunStatus::Failed);
    assert_eq!(states[0].status, OcTaskRunStatus::Failed);
    assert_eq!(states[0].completed_at.as_deref(), Some("t1"));
    assert_eq!(states[1].status, OcTaskRunStatus::Blocked);
}

#[test]
fn prompt_with_context_ends_with_task() {
    assert_eq!(compose_task_prompt("Do it", &vec![]), "Do it");
    let p = compose_task_prompt("Do it", &vec![("A".into(), "made A".into()), ("B".into(), "made B".into())]);
    assert_eq!(
        p,
        "Önceki adımlarda yapılanlar:\n- A: made A\n- B: made B\n\nŞimdi senin görevin:\nDo it"
    );
    assert!(p.ends_with("Do it"));
}

#[test]
fn hook_decisions() {
    assert_eq!(hook_action(None, true), HookAction::Skip);
    assert_eq!(hook_action(Some((1, 2)), true), HookAction::TaskCompleted { run_id: 1, task_id: 2 });
    assert_eq!(hook_action(Some((1, 2)), false), HookAction::TaskFailed { run_id: 1, task_id: 2 });
    assert_eq!(NoopOcHook.on_coding_agent_completed(5, true), HookAction::Skip);
    assert_eq!(active_run_ids(&uuid_to_text(9), "garbage"), (9, 0));
}
