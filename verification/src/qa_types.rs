//! QA runs: the test command run against a workspace and its retries.

use vstd::prelude::*;

use crate::text::str_eq;

verus! {

/// Where a QA run stands.
#[derive(Debug, Clone, Copy, PartialEq, Eq, Structural)]
pub enum OcQaRunStatus {
    Pending,
    Running,
    Passed,
    /// The tests failed; the agent was sent the failures and a retry is awaited.
    Failed,
    /// The retries ran out; a person has to step in.
    Exhausted,
}

impl OcQaRunStatus {
    /// The text that stands for this value.
    pub open spec fn name(self) -> Seq<char> {
        match self {
            OcQaRunStatus::Pending => "pending"@,
            OcQaRunStatus::Running => "running"@,
            OcQaRunStatus::Passed => "passed"@,
            OcQaRunStatus::Failed => "failed"@,
            OcQaRunStatus::Exhausted => "exhausted"@,
        }
    }

    /// The value that `s` stands for, if any.
    pub open spec fn named(s: Seq<char>) -> Option<OcQaRunStatus> {
        if s == "pending"@ {
            Some(OcQaRunStatus::Pending)
        } else if s == "running"@ {
            Some(OcQaRunStatus::Running)
        } else if s == "passed"@ {
            Some(OcQaRunStatus::Passed)
        } else if s == "failed"@ {
            Some(OcQaRunStatus::Failed)
        } else if s == "exhausted"@ {
            Some(OcQaRunStatus::Exhausted)
        } else {
            None
        }
    }

    /// The text that stands for this value.
    pub fn as_str(&self) -> (s: &'static str)
        ensures
            s@ == self.name(),
    {
        match self {
            OcQaRunStatus::Pending => "pending",
            OcQaRunStatus::Running => "running",
            OcQaRunStatus::Passed => "passed",
            OcQaRunStatus::Failed => "failed",
            OcQaRunStatus::Exhausted => "exhausted",
        }
    }

    /// Reads a value back from its text; `None` for any other text.
    pub fn parse(s: &str) -> (r: Option<OcQaRunStatus>)
        ensures
            r == OcQaRunStatus::named(s@),
    {
        if str_eq(s, "pending") {
            Some(OcQaRunStatus::Pending)
        } else if str_eq(s, "running") {
            Some(OcQaRunStatus::Running)
        } else if str_eq(s, "passed") {
            Some(OcQaRunStatus::Passed)
        } else if str_eq(s, "failed") {
            Some(OcQaRunStatus::Failed)
        } else if str_eq(s, "exhausted") {
            Some(OcQaRunStatus::Exhausted)
        } else {
            None
        }
    }

    /// Reading back the text of a value gives the value.
    pub proof fn lemma_parse_as_str(self)
        ensures
            OcQaRunStatus::named(self.name()) == Some(self),
    {
        reveal_strlit("pending");
        reveal_strlit("running");
        reveal_strlit("passed");
        reveal_strlit("failed");
        reveal_strlit("exhausted");
        assert("pending"@[0] != "running"@[0]);
        assert("pending"@.len() != "passed"@.len());
        assert("pending"@.len() != "failed"@.len());
        assert("pending"@.len() != "exhausted"@.len());
        assert("running"@.len() != "passed"@.len());
        assert("running"@.len() != "failed"@.len());
        assert("running"@.len() != "exhausted"@.len());
        assert("passed"@[0] != "failed"@[0]);
        assert("passed"@.len() != "exhausted"@.len());
        assert("failed"@.len() != "exhausted"@.len());
    }
}

/// A QA run of a workspace. Identifiers are the 128-bit values of UUIDs; times are RFC 3339 text.
#[derive(Debug, Clone)]
pub struct OcQaRun {
    pub id: u128,
    pub workspace_id: u128,
    pub execution_process_id: u128,
    pub test_command: String,
    pub status: OcQaRunStatus,
    pub retry_count: i64,
    pub max_retries: i64,
    pub created_at: String,
    pub updated_at: String,
}

/// The outcome of one attempt of a QA run.
#[derive(Debug, Clone)]
pub struct OcQaResult {
    pub id: u128,
    pub qa_run_id: u128,
    pub attempt_number: i64,
    pub exit_code: Option<i64>,
    pub output: String,
    pub passed: bool,
    pub created_at: String,
}

/// A request to start QA on a workspace.
#[derive(Debug, Clone)]
pub struct StartQaRequest {
    pub workspace_id: u128,
    pub execution_process_id: u128,
    /// Detected from the workspace's files when not given.
    pub test_command: Option<String>,
    pub max_retries: Option<i64>,
}

} // verus!
