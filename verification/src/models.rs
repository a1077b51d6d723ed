//! Data model: plans, plan days, writing sessions, tasks, and the request
//! and view shapes the store operations exchange with their callers.

use vstd::prelude::*;
use crate::text::lower_of;
use crate::text::lowercase;
use crate::text::str_eq;

verus! {

/// Status of a writing plan.  Stored as lowercase text; unrecognised text
/// falls back to `Active`.
#[derive(Debug, Clone, Copy, PartialEq, Eq, Structural)]
pub enum PlanStatus {
    Active,
    Paused,
    Completed,
}

/// The text a status is stored as.
pub open spec fn plan_status_str(s: PlanStatus) -> Seq<char> {
    match s {
        PlanStatus::Active => "active"@,
        PlanStatus::Paused => "paused"@,
        PlanStatus::Completed => "completed"@,
    }
}

/// The status a text denotes, by its lowercase form; anything unrecognised
/// is `Active`.
pub open spec fn plan_status_from_spec(s: Seq<char>) -> PlanStatus {
    if lower_of(s) == "active"@ {
        PlanStatus::Active
    } else if lower_of(s) == "paused"@ {
        PlanStatus::Paused
    } else if lower_of(s) == "completed"@ {
        PlanStatus::Completed
    } else {
        PlanStatus::Active
    }
}

impl PlanStatus {
    pub fn as_str(&self) -> (r: &'static str)
        ensures
            r@ == plan_status_str(*self),
    {
        match self {
            PlanStatus::Active => "active",
            PlanStatus::Paused => "paused",
            PlanStatus::Completed => "completed",
        }
    }

    pub fn from_str(s: &str) -> (r: Self)
        ensures
            r == plan_status_from_spec(s@),
    {
        let low = lowercase(s);
        if str_eq(low.as_str(), "active") {
            PlanStatus::Active
        } else if str_eq(low.as_str(), "paused") {
            PlanStatus::Paused
        } else if str_eq(low.as_str(), "completed") {
            PlanStatus::Completed
        } else {
            PlanStatus::Active
        }
    }
}

/// The default status of a new plan.
pub fn default_status() -> (r: PlanStatus)
    ensures
        r == PlanStatus::Active,
{
    PlanStatus::Active
}

/// Task priority.  Stored as lowercase text; unrecognised text falls back to
/// `Low`.
#[derive(Debug, Clone, Copy, PartialEq, Eq, Structural)]
pub enum Priority {
    Low,
    Medium,
    High,
}

pub open spec fn priority_str(p: Priority) -> Seq<char> {
    match p {
        Priority::Low => "low"@,
        Priority::Medium => "medium"@,
        Priority::High => "high"@,
    }
}

pub open spec fn priority_from_spec(s: Seq<char>) -> Priority {
    if lower_of(s) == "high"@ {
        Priority::High
    } else if lower_of(s) == "medium"@ {
        Priority::Medium
    } else {
        Priority::Low
    }
}

impl Priority {
    pub fn as_str(&self) -> (r: &'static str)
        ensures
            r@ == priority_str(*self),
    {
        match self {
            Priority::Low => "low",
            Priority::Medium => "medium",
            Priority::High => "high",
        }
    }

    pub fn from_str(s: &str) -> (r: Self)
        ensures
            r == priority_from_spec(s@),
    {
        let low = lowercase(s);
        if str_eq(low.as_str(), "high") {
            Priority::High
        } else if str_eq(low.as_str(), "medium") {
            Priority::Medium
        } else {
            Priority::Low
        }
    }
}

/// The default priority of a task created without one.
pub fn default_priority() -> (r: Priority)
    ensures
        r == Priority::Medium,
{
    Priority::Medium
}

/// How a task repeats.  Stored as lowercase text; unrecognised text means no
/// repetition.
#[derive(Debug, Clone, Copy, PartialEq, Eq, Structural)]
pub enum RepeatType {
    Daily,
    Weekly,
    Monthly,
}

pub open spec fn repeat_str(r: RepeatType) -> Seq<char> {
    match r {
        RepeatType::Daily => "daily"@,
        RepeatType::Weekly => "weekly"@,
        RepeatType::Monthly => "monthly"@,
    }
}

pub open spec fn repeat_from_spec(s: Seq<char>) -> Option<RepeatType> {
    if lower_of(s) == "daily"@ {
        Some(RepeatType::Daily)
    } else if lower_of(s) == "weekly"@ {
        Some(RepeatType::Weekly)
    } else if lower_of(s) == "monthly"@ {
        Some(RepeatType::Monthly)
    } else {
        None
    }
}

impl RepeatType {
    pub fn as_str(&self) -> (r: &'static str)
        ensures
            r@ == repeat_str(*self),
    {
        match self {
            RepeatType::Daily => "daily",
            RepeatType::Weekly => "weekly",
            RepeatType::Monthly => "monthly",
        }
    }

    pub fn from_str(s: &str) -> (r: Option<Self>)
        ensures
            r == repeat_from_spec(s@),
    {
        let low = lowercase(s);
        if str_eq(low.as_str(), "daily") {
            Some(RepeatType::Daily)
        } else if str_eq(low.as_str(), "weekly") {
            Some(RepeatType::Weekly)
        } else if str_eq(low.as_str(), "monthly") {
            Some(RepeatType::Monthly)
        } else {
            None
        }
    }
}

/// The default difficulty of a generated plan request.
pub fn default_difficulty() -> (r: String)
    ensures
        r@ == "beginner"@,
{
    String::from_str("beginner")
}

/// A writing plan: a named, dated sequence of day entries.
#[derive(Debug, Clone)]
pub struct WritingPlan {
    pub id: Option<i64>,
    pub name: String,
    pub theme: Option<String>,
    pub start_date: String,
    pub total_days: i32,
    pub status: PlanStatus,
    pub created_at: Option<String>,
}

/// One scheduled day of a plan.
#[derive(Debug, Clone)]
pub struct PlanDay {
    pub id: Option<i64>,
    pub plan_id: i64,
    pub day_number: i32,
    pub title: String,
    pub prompt: String,
    pub scheduled_date: Option<String>,
}

/// A plan day joined with its writing-completion state.
#[derive(Debug, Clone)]
pub struct PlanDayDetail {
    pub id: i64,
    pub plan_id: i64,
    pub day_number: i32,
    pub title: String,
    pub prompt: String,
    pub scheduled_date: Option<String>,
    pub is_completed: bool,
    pub word_count: i32,
    pub writing_title: Option<String>,
    pub writing_id: Option<i64>,
}

/// Partial update of a single plan day.
#[derive(Debug, Clone)]
pub struct UpdatePlanDayRequest {
    pub id: i64,
    pub title: Option<String>,
    pub prompt: Option<String>,
}

/// A structured plan to import: name, optional theme, start date and the
/// ordered day entries.
#[derive(Debug, Clone)]
pub struct ImportPlanRequest {
    pub name: String,
    pub theme: Option<String>,
    pub start_date: String,
    pub days: Vec<ImportPlanDayItem>,
}

/// One day entry of a plan to import.
#[derive(Debug, Clone)]
pub struct ImportPlanDayItem {
    pub day: i32,
    pub title: String,
    pub prompt: String,
}

/// Request to generate a plan via an external plan-generation collaborator.
#[derive(Debug, Clone)]
pub struct GeneratePlanRequest {
    pub name: String,
    pub theme: String,
    pub total_days: i32,
    pub start_date: String,
    pub difficulty: String,
}

/// Partial update of a plan's basic fields.
#[derive(Debug, Clone)]
pub struct UpdatePlanRequest {
    pub id: i64,
    pub name: Option<String>,
    pub theme: Option<String>,
    pub start_date: Option<String>,
}

/// Insertion of a new day at a position inside an existing plan.
#[derive(Debug, Clone)]
pub struct AddPlanDayRequest {
    pub plan_id: i64,
    pub day_number: i32,
    pub title: String,
    pub prompt: String,
    pub scheduled_date: Option<String>,
}

/// A plan joined with all its days and their completion state.
#[derive(Debug, Clone)]
pub struct PlanWithDays {
    pub plan: WritingPlan,
    pub days: Vec<PlanDayDetail>,
    pub completed_days: i32,
}

/// The day scheduled for today across all active plans, if any.
#[derive(Debug, Clone)]
pub struct TodayWritingTask {
    pub plan_name: String,
    pub plan_id: i64,
    pub day_number: i32,
    pub title: String,
    pub prompt: String,
    pub is_completed: bool,
}

/// A recorded writing session.
#[derive(Debug, Clone)]
pub struct Writing {
    pub id: Option<i64>,
    pub plan_day_id: Option<i64>,
    pub title: String,
    pub content: String,
    pub word_count: i32,
    pub duration_seconds: i32,
    pub written_date: String,
    pub created_at: Option<String>,
}

/// Request to record a writing session.
#[derive(Debug, Clone)]
pub struct SaveWritingRequest {
    pub plan_day_id: Option<i64>,
    pub title: String,
    pub content: String,
    pub word_count: i32,
    pub duration_seconds: i32,
}

/// Aggregate statistics over all writing sessions.  Per-session averages are
/// `total_words / total_sessions` and `total_duration / total_sessions`,
/// taken as zero when there are no sessions; they are left to the caller to
/// divide out.
#[derive(Debug, Clone)]
pub struct WritingStats {
    pub total_days: i32,
    pub total_words: i64,
    pub total_duration: i64,
    pub current_streak: i32,
    pub max_streak: i32,
    pub total_sessions: i64,
}

/// Aggregate word count and session count of one calendar date.
#[derive(Debug, Clone)]
pub struct HeatmapEntry {
    pub date: String,
    pub word_count: i32,
    pub count: i32,
}

/// Filter for listing writing sessions; an absent field means no constraint.
#[derive(Debug, Clone)]
pub struct WritingFilter {
    pub start_date: Option<String>,
    pub end_date: Option<String>,
    pub plan_id: Option<i64>,
}

/// A task (to-do item).
#[derive(Debug, Clone)]
pub struct Task {
    pub id: Option<i64>,
    pub title: String,
    pub description: Option<String>,
    pub priority: Priority,
    pub due_date: Option<String>,
    pub repeat: Option<RepeatType>,
    pub completed: bool,
    pub created_at: Option<String>,
    pub updated_at: Option<String>,
}

/// Request to create a task.
#[derive(Debug, Clone)]
pub struct CreateTaskRequest {
    pub title: String,
    pub description: Option<String>,
    pub priority: Priority,
    pub due_date: Option<String>,
    pub repeat: Option<RepeatType>,
}

/// Partial update of a task.
#[derive(Debug, Clone)]
pub struct UpdateTaskRequest {
    pub id: i64,
    pub title: Option<String>,
    pub description: Option<String>,
    pub priority: Option<Priority>,
    pub due_date: Option<String>,
    pub repeat: Option<RepeatType>,
    pub completed: Option<bool>,
}

/// One task of a batch import; `due` is an accepted alias for `due_date`.
#[derive(Debug, Clone)]
pub struct ImportTaskItem {
    pub title: String,
    pub description: Option<String>,
    pub priority: Priority,
    pub due_date: Option<String>,
    pub due: Option<String>,
    pub repeat: Option<RepeatType>,
}

} // verus!
