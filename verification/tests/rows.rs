use openclaw::ids::uuid_to_text;
use openclaw::json::{decode_blocked_by, decode_strings, encode_blocked_by, parse_string_list, strings_json};
use openclaw::orchestrator::task_run_state_from_row;
use openclaw::orchestrator_types::OcTaskRunStatus;
use openclaw::planner::OcPlanner;
use openclaw::planner_types::OcTaskComplexity;

#[test]
fn blocked_by_round_trip() {
    let ids = vec![1u128, 0xabcdef];
    let text = encode_blocked_by(&ids);
    assert_eq!(text, format!("[\"{}\",\"{}\"]", uuid_to_text(1), uuid_to_text(0xabcdef)));
    assert_eq!(decode_blocked_by(Some(&text)), ids);
}

#[test]
fn blocked_by_skips_what_does_not_read() {
    let text = format!("[\"nope\",\"{}\"]", uuid_to_text(7));
    assert_eq!(decode_blocked_by(Some(&text)), vec![7]);
    assert!(decode_blocked_by(Some("not json")).is_empty());
    assert!(decode_blocked_by(Some("[1, 2]")).is_empty());
    assert!(decode_blocked_by(None).is_empty());
}

#[test]
fn string_lists() {
    assert_eq!(strings_json(&vec!["a".to_string(), "b\"c".to_string()]), "[\"a\",\"b\\\"c\"]");
    assert_eq!(strings_json(&vec![]), "[]");
    assert_eq!(parse_string_list("[\"x\"]"), Some(vec!["x".to_string()]));
    assert_eq!(parse_string_list("{}"), None);
    assert_eq!(decode_strings(Some("[\"DB\"]")), vec!["DB".to_string()]);
    assert!(decode_strings(Some("oops")).is_empty());
}

#[test]
fn run_state_from_row() {
    let (a, b, c) = (uuid_to_text(1), uuid_to_text(2), uuid_to_text(3));
    let blocked = encode_blocked_by(&vec![9]);
    let st = task_run_state_from_row(
        &a,
        &b,
        &c,
        Some("bad"),
        "blocked",
        Some(&blocked),
        Some("sum".into()),
        None,
        Some("t2".into()),
        "t0".into(),
    )
    .unwrap();
    assert_eq!((st.id, st.run_id, st.task_id), (1, 2, 3));
    assert_eq!(st.workspace_id, None);
    assert_eq!(st.status, OcTaskRunStatus::Blocked);
    assert_eq!(st.blocked_by, vec![9]);
    assert_eq!(st.context_summary.as_deref(), Some("sum"));
    assert_eq!(st.completed_at.as_deref(), Some("t2"));
    assert_eq!(st.created_at, "t0");

    let unknown = task_run_state_from_row(&a, &b, &c, Some(&c), "weird", None, None, None, None, "t0".into()).unwrap();
    assert_eq!(unknown.status, OcTaskRunStatus::Pending);
    assert_eq!(unknown.workspace_id, Some(3));
    assert!(unknown.blocked_by.is_empty());

    assert!(task_run_state_from_row("x", &b, &c, None, "pending", None, None, None, None, "t0".into()).is_none());
}

#[test]
fn plan_task_from_row_reads_fields() {
    let (a, b) = (uuid_to_text(4), uuid_to_text(5));
    let t = OcPlanner::plan_task_from_row(
        &a,
        &b,
        Some("zz"),
        "T".into(),
        "D".into(),
        None,
        "HIGH",
        Some("[\"A\"]"),
        2,
        "t0".into(),
    )
    .unwrap();
    assert_eq!((t.id, t.plan_id, t.issue_id), (4, 5, None));
    assert_eq!(t.estimated_complexity, OcTaskComplexity::Medium);
    assert_eq!(t.depends_on, vec!["A".to_string()]);
    let t2 = OcPlanner::plan_task_from_row(&a, &b, None, "T".into(), "D".into(), None, "high", None, 0, "t0".into()).unwrap();
    assert_eq!(t2.estimated_complexity, OcTaskComplexity::High);
    assert!(t2.depends_on.is_empty());
    assert!(OcPlanner::plan_task_from_row(&a, "x", None, "T".into(), "D".into(), None, "low", None, 0, "t".into()).is_none());
}
