//! The QA loop: which test command runs, and what each test result means for the run.

use vstd::prelude::*;

use crate::qa_types::{OcQaRun, OcQaRunStatus, StartQaRequest};
use crate::text::{decimal_text, int_to_text, push_str, trim, trimmed};

verus! {

/// Why QA could not go on.
#[derive(Debug, Clone)]
pub enum QaError {
    /// No test command was given and none could be found in the workspace directory.
    NoTestCommand(String),
    /// Anything else, with its message.
    Other(String),
}

/// What a test result means for the agent.
#[derive(Debug, Clone)]
pub enum QaOutcome {
    /// The tests passed; the workspace is ready for a person to review.
    Passed,
    /// The tests failed; the follow-up prompt goes back to the agent.
    FailedRetry { follow_up_prompt: String, retry_count: i64 },
    /// The retries ran out; a person has to step in.
    Exhausted { last_output: String },
}

/// One recorded attempt of a QA run.
#[derive(Debug, Clone)]
pub struct QaAttempt {
    pub attempt_number: i64,
    pub passed: bool,
    pub outcome: QaOutcome,
}

/// How many retries a run gets when the request does not say.
pub open spec fn default_max_retries() -> i64 {
    3
}

/// The prompt that sends a failed test run back to the agent.
pub open spec fn follow_up_text(test_command: Seq<char>, output: Seq<char>, attempt: int) -> Seq<char> {
    "Deneme #"@ + decimal_text(attempt) + ": `"@ + test_command + "` komutu başarısız oldu.\n\nTest çıktısı:\n```\n"@
        + output + "\n```\n\nLütfen yukarıdaki hataları düzelt ve tekrar çalışır hale getir."@
}

/// Builds the prompt that sends a failed test run back to the agent.
pub fn build_follow_up_prompt(test_command: &str, output: &str, attempt: i64) -> (r: String)
    ensures
        r@ == follow_up_text(test_command@, output@, attempt as int),
{
    let mut s = String::new();
    push_str(&mut s, "Deneme #");
    let n = int_to_text(attempt);
    push_str(&mut s, n.as_str());
    push_str(&mut s, ": `");
    push_str(&mut s, test_command);
    push_str(&mut s, "` komutu başarısız oldu.\n\nTest çıktısı:\n```\n");
    push_str(&mut s, output);
    push_str(&mut s, "\n```\n\nLütfen yukarıdaki hataları düzelt ve tekrar çalışır hale getir.");
    s
}

/// The test command of a run: the one asked for, else the one found in the workspace;
/// without either, `NoTestCommand` with the workspace directory.
pub fn choose_test_command(requested: Option<String>, detected: Option<String>, workspace_dir: String) -> (r:
    Result<String, QaError>)
    ensures
        match requested {
            Some(c) => r == Ok::<String, QaError>(c),
            None => match detected {
                Some(c) => r == Ok::<String, QaError>(c),
                None => r == Err::<String, QaError>(QaError::NoTestCommand(workspace_dir)),
            },
        },
{
    match requested {
        Some(c) => Ok(c),
        None => match detected {
            Some(c) => Ok(c),
            None => Err(QaError::NoTestCommand(workspace_dir)),
        },
    }
}

/// A new QA run for the request, running `test_command` with no retry used yet.
pub fn new_qa_run(id: u128, req: &StartQaRequest, test_command: String, now: String) -> (run: OcQaRun)
    ensures
        run.id == id,
        run.workspace_id == req.workspace_id,
        run.execution_process_id == req.execution_process_id,
        run.test_command == test_command,
        run.status == OcQaRunStatus::Running,
        run.retry_count == 0,
        run.max_retries == match req.max_retries {
            Some(m) => m,
            None => default_max_retries(),
        },
        run.created_at == now,
        run.updated_at == now,
{
    let max_retries = match req.max_retries {
        Some(m) => m,
        None => 3,
    };
    OcQaRun {
        id,
        workspace_id: req.workspace_id,
        execution_process_id: req.execution_process_id,
        test_command,
        status: OcQaRunStatus::Running,
        retry_count: 0,
        max_retries,
        created_at: now.clone(),
        updated_at: now,
    }
}

/// The retry count and status of a run after one attempt that exited with `exit_code`.
pub open spec fn attempt_effect(retry_count: int, max_retries: int, exit_code: int) -> (int, OcQaRunStatus) {
    if exit_code == 0 {
        (retry_count, OcQaRunStatus::Passed)
    } else if retry_count + 1 >= max_retries {
        (retry_count + 1, OcQaRunStatus::Exhausted)
    } else {
        (retry_count + 1, OcQaRunStatus::Failed)
    }
}

/// The retry count and status of a new run after `k` failing attempts in a row.
pub open spec fn after_failures(max_retries: int, k: nat) -> (int, OcQaRunStatus)
    decreases k,
{
    if k == 0 {
        (0, OcQaRunStatus::Running)
    } else {
        attempt_effect(after_failures(max_retries, (k - 1) as nat).0, max_retries, 1)
    }
}

/// Every failure counts as one retry, and a run is exhausted from the failure that brings
/// its retries to the maximum on: before that each failure goes back to the agent.
pub proof fn lemma_failures_until_exhausted(max_retries: int, k: nat)
    requires
        k >= 1,
    ensures
        after_failures(max_retries, k).0 == k,
        after_failures(max_retries, k).1 == if k >= max_retries {
            OcQaRunStatus::Exhausted
        } else {
            OcQaRunStatus::Failed
        },
    decreases k,
{
    if k > 1 {
        lemma_failures_until_exhausted(max_retries, (k - 1) as nat);
    } else {
        assert(after_failures(max_retries, 0) == (0int, OcQaRunStatus::Running));
    }
}

/// Records the result of one test attempt at `now`: exit code 0 passes the run; otherwise
/// the attempt counts as a retry, and the run is exhausted once the retries reach the maximum,
/// else the failure output goes back to the agent.
pub fn record_attempt(run: &mut OcQaRun, exit_code: i32, output: String, now: String) -> (r: QaAttempt)
    requires
        old(run).retry_count < i64::MAX,
    ensures
        r.attempt_number == old(run).retry_count + 1,
        r.passed == (exit_code == 0),
        final(run).id == old(run).id,
        final(run).workspace_id == old(run).workspace_id,
        final(run).execution_process_id == old(run).execution_process_id,
        final(run).test_command == old(run).test_command,
        final(run).max_retries == old(run).max_retries,
        final(run).created_at == old(run).created_at,
        final(run).updated_at == now,
        (final(run).retry_count as int, final(run).status) == attempt_effect(
            old(run).retry_count as int,
            old(run).max_retries as int,
            exit_code as int,
        ),
        exit_code == 0 ==> {
            &&& final(run).status == OcQaRunStatus::Passed
            &&& final(run).retry_count == old(run).retry_count
            &&& r.outcome is Passed
        },
        exit_code != 0 && r.attempt_number >= old(run).max_retries ==> {
            &&& final(run).status == OcQaRunStatus::Exhausted
            &&& final(run).retry_count == r.attempt_number
            &&& r.outcome matches QaOutcome::Exhausted { last_output } && last_output == output
        },
        exit_code != 0 && r.attempt_number < old(run).max_retries ==> {
            &&& final(run).status == OcQaRunStatus::Failed
            &&& final(run).retry_count == r.attempt_number
            &&& r.outcome matches QaOutcome::FailedRetry { follow_up_prompt, retry_count } && retry_count
                == r.attempt_number && follow_up_prompt@ == follow_up_text(
                old(run).test_command@,
                output@,
                r.attempt_number as int,
            )
        },
{
    let attempt_number = run.retry_count + 1;
    run.updated_at = now;
    if exit_code == 0 {
        run.status = OcQaRunStatus::Passed;
        return QaAttempt { attempt_number, passed: true, outcome: QaOutcome::Passed };
    }
    run.retry_count = attempt_number;
    if attempt_number >= run.max_retries {
        run.status = OcQaRunStatus::Exhausted;
        return QaAttempt {
            attempt_number,
            passed: false,
            outcome: QaOutcome::Exhausted { last_output: output },
        };
    }
    run.status = OcQaRunStatus::Failed;
    let follow_up_prompt = build_follow_up_prompt(run.test_command.as_str(), output.as_str(), attempt_number);
    QaAttempt {
        attempt_number,
        passed: false,
        outcome: QaOutcome::FailedRetry { follow_up_prompt, retry_count: attempt_number },
    }
}

/// The combined output of a test command: its standard output then its standard error, trimmed.
pub fn combined_output(stdout: &str, stderr: &str) -> (r: String)
    ensures
        r@ == trim(stdout@ + stderr@),
{
    let mut s = String::new();
    push_str(&mut s, stdout);
    push_str(&mut s, stderr);
    trimmed(s.as_str())
}

} // verus!
