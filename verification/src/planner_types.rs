//! Plans and the tasks they are made of.

use vstd::prelude::*;

use crate::text::str_eq;

verus! {

/// Where a plan stands.
#[derive(Debug, Clone, Copy, PartialEq, Eq, Structural)]
pub enum OcPlanStatus {
    Pending,
    Analyzing,
    Ready,
    Running,
    Completed,
    Failed,
}

/// How much work a task is estimated to be.
#[derive(Debug, Clone, Copy, PartialEq, Eq, Structural)]
pub enum OcTaskComplexity {
    Low,
    Medium,
    High,
}

impl OcPlanStatus {
    /// The text that stands for this value.
    pub open spec fn name(self) -> Seq<char> {
        match self {
            OcPlanStatus::Pending => "pending"@,
            OcPlanStatus::Analyzing => "analyzing"@,
            OcPlanStatus::Ready => "ready"@,
            OcPlanStatus::Running => "running"@,
            OcPlanStatus::Completed => "completed"@,
            OcPlanStatus::Failed => "failed"@,
        }
    }

    /// The value that `s` stands for, if any.
    pub open spec fn named(s: Seq<char>) -> Option<OcPlanStatus> {
        if s == "pending"@ {
            Some(OcPlanStatus::Pending)
        } else if s == "analyzing"@ {
            Some(OcPlanStatus::Analyzing)
        } else if s == "ready"@ {
            Some(OcPlanStatus::Ready)
        } else if s == "running"@ {
            Some(OcPlanStatus::Running)
        } else if s == "completed"@ {
            Some(OcPlanStatus::Completed)
        } else if s == "failed"@ {
            Some(OcPlanStatus::Failed)
        } else {
            None
        }
    }

    /// The text that stands for this value.
    pub fn as_str(&self) -> (s: &'static str)
        ensures
            s@ == self.name(),
    {
        match self {
            OcPlanStatus::Pending => "pending",
            OcPlanStatus::Analyzing => "analyzing",
            OcPlanStatus::Ready => "ready",
            OcPlanStatus::Running => "running",
            OcPlanStatus::Completed => "completed",
            OcPlanStatus::Failed => "failed",
        }
    }

    /// Reads a value back from its text; `None` for any other text.
    pub fn parse(s: &str) -> (r: Option<OcPlanStatus>)
        ensures
            r == OcPlanStatus::named(s@),
    {
        if str_eq(s, "pending") {
            Some(OcPlanStatus::Pending)
        } else if str_eq(s, "analyzing") {
            Some(OcPlanStatus::Analyzing)
        } else if str_eq(s, "ready") {
            Some(OcPlanStatus::Ready)
        } else if str_eq(s, "running") {
            Some(OcPlanStatus::Running)
        } else if str_eq(s, "completed") {
            Some(OcPlanStatus::Completed)
        } else if str_eq(s, "failed") {
            Some(OcPlanStatus::Failed)
        } else {
            None
        }
    }

    /// Reading back the text of a value gives the value.
    pub proof fn lemma_parse_as_str(self)
        ensures
            OcPlanStatus::named(self.name()) == Some(self),
    {
        reveal_strlit("pending");
        reveal_strlit("analyzing");
        reveal_strlit("ready");
        reveal_strlit("running");
        reveal_strlit("completed");
        reveal_strlit("failed");
        assert("pending"@.len() != "analyzing"@.len());
        assert("pending"@.len() != "ready"@.len());
        assert("pending"@[0] != "running"@[0]);
        assert("pending"@.len() != "completed"@.len());
        assert("pending"@.len() != "failed"@.len());
        assert("analyzing"@.len() != "ready"@.len());
        assert("analyzing"@.len() != "running"@.len());
        assert("analyzing"@[0] != "completed"@[0]);
        assert("analyzing"@.len() != "failed"@.len());
        assert("ready"@.len() != "running"@.len());
        assert("ready"@.len() != "completed"@.len());
        assert("ready"@.len() != "failed"@.len());
        assert("running"@.len() != "completed"@.len());
        assert("running"@.len() != "failed"@.len());
        assert("completed"@.len() != "failed"@.len());
    }
}

impl OcTaskComplexity {
    /// The text that stands for this value.
    pub open spec fn name(self) -> Seq<char> {
        match self {
            OcTaskComplexity::Low => "low"@,
            OcTaskComplexity::Medium => "medium"@,
            OcTaskComplexity::High => "high"@,
        }
    }

    /// The value that `s` stands for, if any.
    pub open spec fn named(s: Seq<char>) -> Option<OcTaskComplexity> {
        if s == "low"@ {
            Some(OcTaskComplexity::Low)
        } else if s == "medium"@ {
            Some(OcTaskComplexity::Medium)
        } else if s == "high"@ {
            Some(OcTaskComplexity::High)
        } else {
            None
        }
    }

    /// The text that stands for this value.
    pub fn as_str(&self) -> (s: &'static str)
        ensures
            s@ == self.name(),
    {
        match self {
            OcTaskComplexity::Low => "low",
            OcTaskComplexity::Medium => "medium",
            OcTaskComplexity::High => "high",
        }
    }

    /// Reads a value back from its text; `None` for any other text.
    pub fn parse(s: &str) -> (r: Option<OcTaskComplexity>)
        ensures
            r == OcTaskComplexity::named(s@),
    {
        if str_eq(s, "low") {
            Some(OcTaskComplexity::Low)
        } else if str_eq(s, "medium") {
            Some(OcTaskComplexity::Medium)
        } else if str_eq(s, "high") {
            Some(OcTaskComplexity::High)
        } else {
            None
        }
    }

    /// Reading back the text of a value gives the value.
    pub proof fn lemma_parse_as_str(self)
        ensures
            OcTaskComplexity::named(self.name()) == Some(self),
    {
        reveal_strlit("low");
        reveal_strlit("medium");
        reveal_strlit("high");
        assert("low"@.len() != "medium"@.len());
        assert("low"@.len() != "high"@.len());
        assert("medium"@.len() != "high"@.len());
    }
}

/// A plan: what was asked for a project and how far it got.
/// Identifiers are the 128-bit values of UUIDs; times are RFC 3339 text.
#[derive(Debug, Clone)]
pub struct OcPlan {
    pub id: u128,
    pub project_id: u128,
    pub prompt: String,
    pub status: OcPlanStatus,
    pub codebase_context: Option<String>,
    pub created_at: String,
    pub updated_at: String,
}

/// One task of a plan. `depends_on` names other tasks of the plan by title.
#[derive(Debug, Clone)]
pub struct OcPlanTask {
    pub id: u128,
    pub plan_id: u128,
    pub issue_id: Option<u128>,
    pub title: String,
    pub description: String,
    pub prompt: Option<String>,
    pub estimated_complexity: OcTaskComplexity,
    pub depends_on: Vec<String>,
    pub order_index: i64,
    pub created_at: String,
}

/// A request to plan work on a project.
#[derive(Debug, Clone)]
pub struct CreateOcPlanRequest {
    pub project_id: u128,
    pub prompt: String,
    pub repo_paths: Option<Vec<String>>,
}

/// A short account of the codebase that a plan was made against.
#[derive(Debug, Clone)]
pub struct OcCodebaseContext {
    pub project_type: String,
    pub key_file_count: usize,
    pub existing_task_count: usize,
    pub summary: String,
}

} // verus!
