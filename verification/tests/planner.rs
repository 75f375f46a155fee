use openclaw::llm::LlmTask;
use openclaw::planner::{OcPlanner, TaskCandidate};
use openclaw::planner_types::{OcPlanTask, OcTaskComplexity};

#[test]
fn test_parse_tasks_from_prompt() {
    let prompt = "Kullanıcı giriş sistemi yaz\nAPI endpoint'lerini ekle\nTestleri yaz";
    let tasks = OcPlanner::parse_tasks_from_prompt(prompt);
    assert_eq!(tasks.len(), 3);
    assert_eq!(tasks[0].0, "Kullanıcı giriş sistemi yaz");
}

#[test]
fn test_parse_tasks_empty_lines_filtered() {
    let prompt = "Task 1\n\n\nTask 2\n";
    let tasks = OcPlanner::parse_tasks_from_prompt(prompt);
    assert_eq!(tasks.len(), 2);
}

#[test]
fn fallback_tasks_are_trimmed_and_sized_by_bytes() {
    let long = "x".repeat(81);
    let medium = "y".repeat(41);
    let prompt = format!("  short  \r\n{}\n{}\n   \n", long, medium);
    let tasks = OcPlanner::parse_tasks_from_prompt(&prompt);
    assert_eq!(tasks.len(), 3);
    assert_eq!(tasks[0], ("short".to_string(), "Implement: short".to_string(), OcTaskComplexity::Low));
    assert_eq!(tasks[1].2, OcTaskComplexity::High);
    assert_eq!(tasks[2].2, OcTaskComplexity::Medium);
    // 21 two-byte letters: 42 bytes, over the medium bound though only 21 characters.
    let turkish = "ş".repeat(21);
    assert_eq!(OcPlanner::parse_tasks_from_prompt(&turkish)[0].2, OcTaskComplexity::Medium);
}

#[test]
fn llm_tasks_become_candidates() {
    let tasks = vec![LlmTask {
        title: "Auth".into(),
        description: "JWT".into(),
        complexity: "HIGH".into(),
        prompt: Some("do it".into()),
        depends_on: vec!["DB".into()],
    }];
    let cands: Vec<TaskCandidate> = OcPlanner::candidates_from_llm(tasks);
    assert_eq!(cands.len(), 1);
    assert_eq!(cands[0].title, "Auth");
    assert_eq!(cands[0].complexity, OcTaskComplexity::High);
    assert_eq!(cands[0].prompt.as_deref(), Some("do it"));
    assert_eq!(cands[0].depends_on, vec!["DB".to_string()]);
}

#[test]
fn plan_tasks_and_order() {
    let cands = OcPlanner::parse_tasks_fallback("A\nB");
    let ids = vec![10u128, 20u128];
    let tasks: Vec<OcPlanTask> = OcPlanner::plan_tasks(7, &ids, cands, "now".to_string());
    assert_eq!(tasks.len(), 2);
    assert_eq!(tasks[1].id, 20);
    assert_eq!(tasks[1].order_index, 1);
    assert_eq!(tasks[0].plan_id, 7);
    let ordered = OcPlanner::order_tasks(tasks, &vec![20, 10]);
    assert_eq!(ordered[0].id, 20);
    assert_eq!(ordered[0].order_index, 0);
    assert_eq!(ordered[0].title, "B");
    assert_eq!(ordered[1].order_index, 1);
}

#[test]
fn built_plan_tasks_follow_dependencies() {
    let cands = OcPlanner::candidates_from_llm(vec![
        LlmTask { title: "UI".into(), description: "d".into(), complexity: "low".into(), prompt: None, depends_on: vec!["API".into()] },
        LlmTask { title: "API".into(), description: "d".into(), complexity: "low".into(), prompt: None, depends_on: vec![] },
    ]);
    let ids = vec![1u128, 2u128];
    let (tasks, resolved) = OcPlanner::build_plan_tasks(9, &ids, cands, "now".to_string());
    let resolved = resolved.unwrap();
    assert_eq!(resolved.edges, vec![(1, 2)]);
    assert_eq!(resolved.ordered_task_ids, vec![2, 1]);
    assert_eq!(tasks[0].title, "API");
    assert_eq!(tasks[0].order_index, 0);
    assert_eq!(tasks[1].title, "UI");
    assert_eq!(tasks[1].order_index, 1);
    assert_eq!(tasks[1].plan_id, 9);
}

#[test]
fn built_plan_tasks_keep_order_on_cycle() {
    let cands = OcPlanner::candidates_from_llm(vec![
        LlmTask { title: "A".into(), description: "d".into(), complexity: "low".into(), prompt: None, depends_on: vec!["B".into()] },
        LlmTask { title: "B".into(), description: "d".into(), complexity: "low".into(), prompt: None, depends_on: vec!["A".into()] },
    ]);
    let (tasks, resolved) = OcPlanner::build_plan_tasks(9, &vec![5, 6], cands, "now".to_string());
    assert!(resolved.is_err());
    assert_eq!(tasks.iter().map(|t| (t.id, t.order_index)).collect::<Vec<_>>(), vec![(5, 0), (6, 1)]);
}
