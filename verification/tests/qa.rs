use openclaw::qa_runner::{
    build_follow_up_prompt, choose_test_command, combined_output, new_qa_run, record_attempt, QaError, QaOutcome,
};
use openclaw::qa_types::{OcQaRunStatus, StartQaRequest};

fn request(max_retries: Option<i64>) -> StartQaRequest {
    StartQaRequest {
        workspace_id: 11,
        execution_process_id: 22,
        test_command: None,
        max_retries,
    }
}

#[test]
fn test_build_follow_up_prompt() {
    let prompt = build_follow_up_prompt("cargo test", "error: expected 2 got 3", 1);
    assert!(prompt.contains("cargo test"));
    assert!(prompt.contains("expected 2 got 3"));
    assert!(prompt.contains("Deneme #1"));
}

#[test]
fn follow_up_prompt_exact_text() {
    let prompt = build_follow_up_prompt("npm test", "boom", 12);
    assert_eq!(
        prompt,
        "Deneme #12: `npm test` komutu başarısız oldu.\n\nTest çıktısı:\n```\nboom\n```\n\nLütfen yukarıdaki hataları düzelt ve tekrar çalışır hale getir."
    );
    assert!(build_follow_up_prompt("t", "o", -3).starts_with("Deneme #-3: "));
}

#[test]
fn test_command_choice() {
    assert_eq!(
        choose_test_command(Some("make test".into()), Some("npm test".into()), "/w".into()).unwrap(),
        "make test"
    );
    assert_eq!(choose_test_command(None, Some("npm test".into()), "/w".into()).unwrap(), "npm test");
    match choose_test_command(None, None, "/w".into()) {
        Err(QaError::NoTestCommand(dir)) => assert_eq!(dir, "/w"),
        other => panic!("unexpected {:?}", other),
    }
}

#[test]
fn new_run_defaults() {
    let run = new_qa_run(1, &request(None), "cargo test".into(), "t0".into());
    assert_eq!(run.max_retries, 3);
    assert_eq!(run.retry_count, 0);
    assert_eq!(run.status, OcQaRunStatus::Running);
    assert_eq!(run.workspace_id, 11);
    let run5 = new_qa_run(1, &request(Some(5)), "cargo test".into(), "t0".into());
    assert_eq!(run5.max_retries, 5);
}

#[test]
fn passing_attempt_passes_the_run() {
    let mut run = new_qa_run(1, &request(Some(2)), "cargo test".into(), "t0".into());
    let a = record_attempt(&mut run, 0, "ok".into(), "t1".into());
    assert!(a.passed);
    assert_eq!(a.attempt_number, 1);
    assert!(matches!(a.outcome, QaOutcome::Passed));
    assert_eq!(run.status, OcQaRunStatus::Passed);
    assert_eq!(run.retry_count, 0);
    assert_eq!(run.updated_at, "t1");
}

#[test]
fn failures_retry_until_exhausted() {
    let mut run = new_qa_run(1, &request(Some(2)), "cargo test".into(), "t0".into());
    let a1 = record_attempt(&mut run, 1, "fail 1".into(), "t1".into());
    assert!(!a1.passed);
    assert_eq!(run.status, OcQaRunStatus::Failed);
    assert_eq!(run.retry_count, 1);
    match a1.outcome {
        QaOutcome::FailedRetry { follow_up_prompt, retry_count } => {
            assert_eq!(retry_count, 1);
            assert_eq!(follow_up_prompt, build_follow_up_prompt("cargo test", "fail 1", 1));
        }
        other => panic!("unexpected {:?}", other),
    }
    let a2 = record_attempt(&mut run, 101, "fail 2".into(), "t2".into());
    assert_eq!(a2.attempt_number, 2);
    assert_eq!(run.status, OcQaRunStatus::Exhausted);
    assert_eq!(run.retry_count, 2);
    match a2.outcome {
        QaOutcome::Exhausted { last_output } => assert_eq!(last_output, "fail 2"),
        other => panic!("unexpected {:?}", other),
    }
}

#[test]
fn zero_retries_exhaust_at_once() {
    let mut run = new_qa_run(1, &request(Some(0)), "t".into(), "t0".into());
    let a = record_attempt(&mut run, -1, "x".into(), "t1".into());
    assert!(matches!(a.outcome, QaOutcome::Exhausted { .. }));
    assert_eq!(run.status, OcQaRunStatus::Exhausted);
}

#[test]
fn combined_output_is_trimmed() {
    assert_eq!(combined_output("  out\n", "err \n"), "out\nerr");
    assert_eq!(combined_output("", ""), "");
}

#[test]
fn default_run_is_exhausted_at_third_failure() {
    let mut run = new_qa_run(1, &request(None), "t".into(), "t0".into());
    let mut statuses = Vec::new();
    for k in 0..4 {
        record_attempt(&mut run, 1, format!("fail {}", k), "t".into());
        statuses.push((run.retry_count, run.status));
    }
    assert_eq!(
        statuses,
        vec![
            (1, OcQaRunStatus::Failed),
            (2, OcQaRunStatus::Failed),
            (3, OcQaRunStatus::Exhausted),
            (4, OcQaRunStatus::Exhausted)
        ]
    );
}
