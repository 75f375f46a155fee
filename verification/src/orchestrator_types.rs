//! Orchestration runs and the state of each task within a run.

use vstd::prelude::*;

use crate::text::str_eq;

verus! {

/// Where an orchestration run stands.
#[derive(Debug, Clone, Copy, PartialEq, Eq, Structural)]
pub enum OcOrchestrationRunStatus {
    Pending,
    Running,
    Completed,
    Failed,
    Cancelled,
}

/// Where one task of a run stands.
#[derive(Debug, Clone, Copy, PartialEq, Eq, Structural)]
pub enum OcTaskRunStatus {
    Pending,
    Blocked,
    Running,
    Completed,
    Failed,
}

impl OcOrchestrationRunStatus {
    /// The text that stands for this value.
    pub open spec fn name(self) -> Seq<char> {
        match self {
            OcOrchestrationRunStatus::Pending => "pending"@,
            OcOrchestrationRunStatus::Running => "running"@,
            OcOrchestrationRunStatus::Completed => "completed"@,
            OcOrchestrationRunStatus::Failed => "failed"@,
            OcOrchestrationRunStatus::Cancelled => "cancelled"@,
        }
    }

    /// The value that `s` stands for, if any.
    pub open spec fn named(s: Seq<char>) -> Option<OcOrchestrationRunStatus> {
        if s == "pending"@ {
            Some(OcOrchestrationRunStatus::Pending)
        } else if s == "running"@ {
            Some(OcOrchestrationRunStatus::Running)
        } else if s == "completed"@ {
            Some(OcOrchestrationRunStatus::Completed)
        } else if s == "failed"@ {
            Some(OcOrchestrationRunStatus::Failed)
        } else if s == "cancelled"@ {
            Some(OcOrchestrationRunStatus::Cancelled)
        } else {
            None
        }
    }

    /// The text that stands for this value.
    pub fn as_str(&self) -> (s: &'static str)
        ensures
            s@ == self.name(),
    {
        match self {
            OcOrchestrationRunStatus::Pending => "pending",
            OcOrchestrationRunStatus::Running => "running",
            OcOrchestrationRunStatus::Completed => "completed",
            OcOrchestrationRunStatus::Failed => "failed",
            OcOrchestrationRunStatus::Cancelled => "cancelled",
        }
    }

    /// Reads a value back from its text; `None` for any other text.
    pub fn parse(s: &str) -> (r: Option<OcOrchestrationRunStatus>)
        ensures
            r == OcOrchestrationRunStatus::named(s@),
    {
        if str_eq(s, "pending") {
            Some(OcOrchestrationRunStatus::Pending)
        } else if str_eq(s, "running") {
            Some(OcOrchestrationRunStatus::Running)
        } else if str_eq(s, "completed") {
            Some(OcOrchestrationRunStatus::Completed)
        } else if str_eq(s, "failed") {
            Some(OcOrchestrationRunStatus::Failed)
        } else if str_eq(s, "cancelled") {
            Some(OcOrchestrationRunStatus::Cancelled)
        } else {
            None
        }
    }

    /// Reading back the text of a value gives the value.
    pub proof fn lemma_parse_as_str(self)
        ensures
            OcOrchestrationRunStatus::named(self.name()) == Some(self),
    {
        reveal_strlit("pending");
        reveal_strlit("running");
        reveal_strlit("completed");
        reveal_strlit("failed");
        reveal_strlit("cancelled");
        assert("pending"@[0] != "running"@[0]);
        assert("pending"@.len() != "completed"@.len());
        assert("pending"@.len() != "failed"@.len());
        assert("pending"@.len() != "cancelled"@.len());
        assert("running"@.len() != "completed"@.len());
        assert("running"@.len() != "failed"@.len());
        assert("running"@.len() != "cancelled"@.len());
        assert("completed"@.len() != "failed"@.len());
        assert("completed"@[1] != "cancelled"@[1]);
        assert("failed"@.len() != "cancelled"@.len());
    }
}

impl OcTaskRunStatus {
    /// The text that stands for this value.
    pub open spec fn name(self) -> Seq<char> {
        match self {
            OcTaskRunStatus::Pending => "pending"@,
            OcTaskRunStatus::Blocked => "blocked"@,
            OcTaskRunStatus::Running => "running"@,
            OcTaskRunStatus::Completed => "completed"@,
            OcTaskRunStatus::Failed => "failed"@,
        }
    }

    /// The value that `s` stands for, if any.
    pub open spec fn named(s: Seq<char>) -> Option<OcTaskRunStatus> {
        if s == "pending"@ {
            Some(OcTaskRunStatus::Pending)
        } else if s == "blocked"@ {
            Some(OcTaskRunStatus::Blocked)
        } else if s == "running"@ {
            Some(OcTaskRunStatus::Running)
        } else if s == "completed"@ {
            Some(OcTaskRunStatus::Completed)
        } else if s == "failed"@ {
            Some(OcTaskRunStatus::Failed)
        } else {
            None
        }
    }

    /// The text that stands for this value.
    pub fn as_str(&self) -> (s: &'static str)
        ensures
            s@ == self.name(),
    {
        match self {
            OcTaskRunStatus::Pending => "pending",
            OcTaskRunStatus::Blocked => "blocked",
            OcTaskRunStatus::Running => "running",
            OcTaskRunStatus::Completed => "completed",
            OcTaskRunStatus::Failed => "failed",
        }
    }

    /// Reads a value back from its text; `None` for any other text.
    pub fn parse(s: &str) -> (r: Option<OcTaskRunStatus>)
        ensures
            r == OcTaskRunStatus::named(s@),
    {
        if str_eq(s, "pending") {
            Some(OcTaskRunStatus::Pending)
        } else if str_eq(s, "blocked") {
            Some(OcTaskRunStatus::Blocked)
        } else if str_eq(s, "running") {
            Some(OcTaskRunStatus::Running)
        } else if str_eq(s, "completed") {
            Some(OcTaskRunStatus::Completed)
        } else if str_eq(s, "failed") {
            Some(OcTaskRunStatus::Failed)
        } else {
            None
        }
    }

    /// Reading back the text of a value gives the value.
    pub proof fn lemma_parse_as_str(self)
        ensures
            OcTaskRunStatus::named(self.name()) == Some(self),
    {
        reveal_strlit("pending");
        reveal_strlit("blocked");
        reveal_strlit("running");
        reveal_strlit("completed");
        reveal_strlit("failed");
        assert("pending"@[0] != "blocked"@[0]);
        assert("pending"@[0] != "running"@[0]);
        assert("pending"@.len() != "completed"@.len());
        assert("pending"@.len() != "failed"@.len());
        assert("blocked"@[0] != "running"@[0]);
        assert("blocked"@.len() != "completed"@.len());
        assert("blocked"@.len() != "failed"@.len());
        assert("running"@.len() != "completed"@.len());
        assert("running"@.len() != "failed"@.len());
        assert("completed"@.len() != "failed"@.len());
    }
}

/// An edge of a plan: `task_id` cannot start before `depends_on_task_id` is finished.
/// Identifiers are the 128-bit values of UUIDs; times are RFC 3339 text.
#[derive(Debug, Clone)]
pub struct OcTaskDependency {
    pub id: u128,
    pub plan_id: u128,
    pub task_id: u128,
    pub depends_on_task_id: u128,
    pub created_at: String,
}

/// One run of a plan.
#[derive(Debug, Clone)]
pub struct OcOrchestrationRun {
    pub id: u128,
    pub plan_id: u128,
    pub status: OcOrchestrationRunStatus,
    pub started_at: Option<String>,
    pub completed_at: Option<String>,
    pub created_at: String,
}

/// The state of one task within a run.
#[derive(Debug, Clone)]
pub struct OcTaskRunState {
    pub id: u128,
    pub run_id: u128,
    pub task_id: u128,
    pub workspace_id: Option<u128>,
    pub status: OcTaskRunStatus,
    /// The tasks that keep this one blocked.
    pub blocked_by: Vec<u128>,
    /// What the task did, once it completed; handed to the tasks that depend on it.
    pub context_summary: Option<String>,
    pub started_at: Option<String>,
    pub completed_at: Option<String>,
    pub created_at: String,
}

/// A request to run a plan.
#[derive(Debug, Clone, Copy)]
pub struct RunPlanRequest {
    pub plan_id: u128,
}

impl OcOrchestrationRun {
    /// A run of `plan_id` that started at `now` and is running.
    pub fn started(id: u128, plan_id: u128, now: String) -> (run: Self)
        ensures
            run.id == id,
            run.plan_id == plan_id,
            run.status == OcOrchestrationRunStatus::Running,
            run.started_at == Some(now),
            run.completed_at == None::<String>,
            run.created_at == now,
    {
        OcOrchestrationRun {
            id,
            plan_id,
            status: OcOrchestrationRunStatus::Running,
            started_at: Some(now.clone()),
            completed_at: None,
            created_at: now,
        }
    }
}

} // verus!
