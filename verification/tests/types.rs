use openclaw::orchestrator_types::{OcOrchestrationRun, OcOrchestrationRunStatus, OcTaskRunStatus};
use openclaw::planner_types::{OcPlanStatus, OcTaskComplexity};
use openclaw::qa_types::OcQaRunStatus;

#[test]
fn plan_status_round_trip() {
    for s in [
        OcPlanStatus::Pending,
        OcPlanStatus::Analyzing,
        OcPlanStatus::Ready,
        OcPlanStatus::Running,
        OcPlanStatus::Completed,
        OcPlanStatus::Failed,
    ] {
        assert_eq!(OcPlanStatus::parse(s.as_str()), Some(s));
    }
    assert_eq!(OcPlanStatus::Analyzing.as_str(), "analyzing");
    assert_eq!(OcPlanStatus::parse("Ready"), None);
}

#[test]
fn complexity_round_trip() {
    for c in [OcTaskComplexity::Low, OcTaskComplexity::Medium, OcTaskComplexity::High] {
        assert_eq!(OcTaskComplexity::parse(c.as_str()), Some(c));
    }
    assert_eq!(OcTaskComplexity::High.as_str(), "high");
    assert_eq!(OcTaskComplexity::parse("extreme"), None);
}

#[test]
fn run_status_round_trip() {
    for s in [
        OcOrchestrationRunStatus::Pending,
        OcOrchestrationRunStatus::Running,
        OcOrchestrationRunStatus::Completed,
        OcOrchestrationRunStatus::Failed,
        OcOrchestrationRunStatus::Cancelled,
    ] {
        assert_eq!(OcOrchestrationRunStatus::parse(s.as_str()), Some(s));
    }
    assert_eq!(OcOrchestrationRunStatus::Cancelled.as_str(), "cancelled");
}

#[test]
fn task_run_status_round_trip() {
    for s in [
        OcTaskRunStatus::Pending,
        OcTaskRunStatus::Blocked,
        OcTaskRunStatus::Running,
        OcTaskRunStatus::Completed,
        OcTaskRunStatus::Failed,
    ] {
        assert_eq!(OcTaskRunStatus::parse(s.as_str()), Some(s));
    }
    assert_eq!(OcTaskRunStatus::Blocked.as_str(), "blocked");
    assert_eq!(OcTaskRunStatus::parse(""), None);
}

#[test]
fn qa_status_round_trip() {
    for s in [
        OcQaRunStatus::Pending,
        OcQaRunStatus::Running,
        OcQaRunStatus::Passed,
        OcQaRunStatus::Failed,
        OcQaRunStatus::Exhausted,
    ] {
        assert_eq!(OcQaRunStatus::parse(s.as_str()), Some(s));
    }
    assert_eq!(OcQaRunStatus::Exhausted.as_str(), "exhausted");
}

#[test]
fn started_run() {
    let run = OcOrchestrationRun::started(1, 2, "now".into());
    assert_eq!(run.status, OcOrchestrationRunStatus::Running);
    assert_eq!(run.started_at.as_deref(), Some("now"));
    assert_eq!(run.completed_at, None);
    assert_eq!(run.created_at, "now");
}
