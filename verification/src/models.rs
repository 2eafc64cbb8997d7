//! The rows of the ledger and the settings.
use vstd::prelude::*;
use vstd::string::*;

use crate::json::{JsonValue, JsonView};
use crate::text;

verus! {

broadcast use vstd::seq_lib::group_seq_properties;

/// The categories of a new ledger.
pub const DEFAULT_CATEGORIES: [&'static str; 7] = [
    "学习",
    "写作",
    "开发",
    "沟通",
    "娱乐",
    "杂务",
    "无效",
];

/// The evidence of a session.
pub open spec fn evidence_views(items: Seq<EvidenceItem>) -> Seq<EvidenceView> {
    items.map_values(|item: EvidenceItem| item@)
}

pub fn copy_evidence(items: &Vec<EvidenceItem>) -> (result: Vec<EvidenceItem>)
    ensures
        evidence_views(result@) == evidence_views(items@),
{
    let mut result: Vec<EvidenceItem> = Vec::new();
    let mut i: usize = 0;
    while i < items.len()
        invariant
            i <= items.len(),
            evidence_views(result@) == evidence_views(items@).take(i as int),
        decreases items.len() - i,
    {
        let ghost done = evidence_views(result@);
        result.push(items[i].copy());
        assert(evidence_views(result@) =~= done.push(items@[i as int]@));
        i += 1;
    }
    assert(evidence_views(items@).take(items.len() as int) =~= evidence_views(items@));
    result
}

/// Keyboard and mouse activity behind one observation.
#[derive(Debug, Default, PartialEq, Eq)]
pub struct InputStats {
    pub idle_seconds: u64,
    pub keyboard_events: u32,
    pub mouse_clicks: u32,
    pub scroll_ticks: u32,
    pub shortcut_events: Vec<String>,
}

/// What `InputStats` holds.
#[verifier::ext_equal]
pub struct InputStatsView {
    pub idle_seconds: u64,
    pub keyboard_events: u32,
    pub mouse_clicks: u32,
    pub scroll_ticks: u32,
    pub shortcut_events: Seq<Seq<char>>,
}

impl View for InputStats {
    type V = InputStatsView;

    open spec fn view(&self) -> InputStatsView {
        InputStatsView {
            idle_seconds: self.idle_seconds,
            keyboard_events: self.keyboard_events,
            mouse_clicks: self.mouse_clicks,
            scroll_ticks: self.scroll_ticks,
            shortcut_events: text::texts(self.shortcut_events@),
        }
    }
}

impl InputStats {
    pub fn copy(&self) -> (result: Self)
        ensures
            result@ == self@,
    {
        InputStats {
            idle_seconds: self.idle_seconds,
            keyboard_events: self.keyboard_events,
            mouse_clicks: self.mouse_clicks,
            scroll_ticks: self.scroll_ticks,
            shortcut_events: text::copy_list(&self.shortcut_events),
        }
    }
}

/// One observation of the foreground window.
#[derive(Debug, PartialEq, Eq)]
pub struct RawActivityEvent {
    pub id: String,
    pub source: String,
    pub timestamp: String,
    pub app: Option<String>,
    pub window_title: Option<String>,
    pub url: Option<String>,
    pub file_path: Option<String>,
    pub workspace: Option<String>,
    pub input_stats: InputStats,
    pub metadata: JsonValue,
}

/// What a `RawActivityEvent` holds.
#[verifier::ext_equal]
pub struct RawEventView {
    pub id: Seq<char>,
    pub source: Seq<char>,
    pub timestamp: Seq<char>,
    pub app: Option<Seq<char>>,
    pub window_title: Option<Seq<char>>,
    pub url: Option<Seq<char>>,
    pub file_path: Option<Seq<char>>,
    pub workspace: Option<Seq<char>>,
    pub input_stats: InputStatsView,
    pub metadata: JsonView,
}

impl View for RawActivityEvent {
    type V = RawEventView;

    open spec fn view(&self) -> RawEventView {
        RawEventView {
            id: self.id@,
            source: self.source@,
            timestamp: self.timestamp@,
            app: text::optional(self.app),
            window_title: text::optional(self.window_title),
            url: text::optional(self.url),
            file_path: text::optional(self.file_path),
            workspace: text::optional(self.workspace),
            input_stats: self.input_stats@,
            metadata: self.metadata@,
        }
    }
}

/// Tokens that an analysis used. The cost is held by its rank among double-precision numbers.
#[derive(Debug, Default, PartialEq, Eq)]
pub struct AiUsage {
    pub input_tokens: u64,
    pub cached_input_tokens: u64,
    pub output_tokens: u64,
    pub reasoning_output_tokens: u64,
    pub total_tokens: u64,
    pub cost_usd: Option<i64>,
    pub cost_note: Option<String>,
}

/// What `AiUsage` holds.
#[verifier::ext_equal]
pub struct AiUsageView {
    pub input_tokens: u64,
    pub cached_input_tokens: u64,
    pub output_tokens: u64,
    pub reasoning_output_tokens: u64,
    pub total_tokens: u64,
    pub cost_usd: Option<i64>,
    pub cost_note: Option<Seq<char>>,
}

impl View for AiUsage {
    type V = AiUsageView;

    open spec fn view(&self) -> AiUsageView {
        AiUsageView {
            input_tokens: self.input_tokens,
            cached_input_tokens: self.cached_input_tokens,
            output_tokens: self.output_tokens,
            reasoning_output_tokens: self.reasoning_output_tokens,
            total_tokens: self.total_tokens,
            cost_usd: self.cost_usd,
            cost_note: text::optional(self.cost_note),
        }
    }
}

impl AiUsage {
    pub fn copy(&self) -> (result: Self)
        ensures
            result@ == self@,
    {
        AiUsage {
            input_tokens: self.input_tokens,
            cached_input_tokens: self.cached_input_tokens,
            output_tokens: self.output_tokens,
            reasoning_output_tokens: self.reasoning_output_tokens,
            total_tokens: self.total_tokens,
            cost_usd: self.cost_usd,
            cost_note: self.cost_note.clone(),
        }
    }
}

/// A stretch of time between two timestamps.
#[derive(Debug, PartialEq, Eq)]
pub struct TimeRange {
    pub started_at: String,
    pub ended_at: String,
}

/// What a `TimeRange` holds.
#[verifier::ext_equal]
pub struct TimeRangeView {
    pub started_at: Seq<char>,
    pub ended_at: Seq<char>,
}

impl View for TimeRange {
    type V = TimeRangeView;

    open spec fn view(&self) -> TimeRangeView {
        TimeRangeView {
            started_at: self.started_at@,
            ended_at: self.ended_at@,
        }
    }
}

impl TimeRange {
    pub fn copy(&self) -> (result: Self)
        ensures
            result@ == self@,
    {
        TimeRange {
            started_at: self.started_at.clone(),
            ended_at: self.ended_at.clone(),
        }
    }
}

/// A queued review of recorded sessions.
#[derive(Debug, PartialEq, Eq)]
pub struct AnalysisJob {
    pub id: String,
    pub chunk_ids: Vec<String>,
    pub metadata_range: TimeRange,
    pub mode: String,
    pub provider: String,
    pub model: String,
    pub retry_count: u32,
    pub status: String,
    pub error: Option<String>,
    pub system_prompt: Option<String>,
    pub user_prompt: Option<String>,
    pub response: Option<String>,
    pub queued_at: String,
    pub processing_started_at: Option<String>,
    pub completed_at: Option<String>,
    pub duration_ms: Option<u64>,
    pub result_count: u32,
    pub usage: AiUsage,
}

/// What an `AnalysisJob` holds.
#[verifier::ext_equal]
pub struct AnalysisJobView {
    pub id: Seq<char>,
    pub chunk_ids: Seq<Seq<char>>,
    pub metadata_range: TimeRangeView,
    pub mode: Seq<char>,
    pub provider: Seq<char>,
    pub model: Seq<char>,
    pub retry_count: u32,
    pub status: Seq<char>,
    pub error: Option<Seq<char>>,
    pub system_prompt: Option<Seq<char>>,
    pub user_prompt: Option<Seq<char>>,
    pub response: Option<Seq<char>>,
    pub queued_at: Seq<char>,
    pub processing_started_at: Option<Seq<char>>,
    pub completed_at: Option<Seq<char>>,
    pub duration_ms: Option<u64>,
    pub result_count: u32,
    pub usage: AiUsageView,
}

impl View for AnalysisJob {
    type V = AnalysisJobView;

    open spec fn view(&self) -> AnalysisJobView {
        AnalysisJobView {
            id: self.id@,
            chunk_ids: text::texts(self.chunk_ids@),
            metadata_range: self.metadata_range@,
            mode: self.mode@,
            provider: self.provider@,
            model: self.model@,
            retry_count: self.retry_count,
            status: self.status@,
            error: text::optional(self.error),
            system_prompt: text::optional(self.system_prompt),
            user_prompt: text::optional(self.user_prompt),
            response: text::optional(self.response),
            queued_at: self.queued_at@,
            processing_started_at: text::optional(self.processing_started_at),
            completed_at: text::optional(self.completed_at),
            duration_ms: self.duration_ms,
            result_count: self.result_count,
            usage: self.usage@,
        }
    }
}

impl AnalysisJob {
    pub fn copy(&self) -> (result: Self)
        ensures
            result@ == self@,
    {
        AnalysisJob {
            id: self.id.clone(),
            chunk_ids: text::copy_list(&self.chunk_ids),
            metadata_range: self.metadata_range.copy(),
            mode: self.mode.clone(),
            provider: self.provider.clone(),
            model: self.model.clone(),
            retry_count: self.retry_count,
            status: self.status.clone(),
            error: self.error.clone(),
            system_prompt: self.system_prompt.clone(),
            user_prompt: self.user_prompt.clone(),
            response: self.response.clone(),
            queued_at: self.queued_at.clone(),
            processing_started_at: self.processing_started_at.clone(),
            completed_at: self.completed_at.clone(),
            duration_ms: self.duration_ms,
            result_count: self.result_count,
            usage: self.usage.copy(),
        }
    }
}

/// A project within a category.
#[derive(Debug, PartialEq, Eq)]
pub struct Project {
    pub id: String,
    pub name: String,
    pub category: String,
    pub source: String,
    pub color: String,
    pub description: Option<String>,
    pub created_at: String,
    pub updated_at: String,
}

/// What a `Project` holds.
#[verifier::ext_equal]
pub struct ProjectView {
    pub id: Seq<char>,
    pub name: Seq<char>,
    pub category: Seq<char>,
    pub source: Seq<char>,
    pub color: Seq<char>,
    pub description: Option<Seq<char>>,
    pub created_at: Seq<char>,
    pub updated_at: Seq<char>,
}

impl View for Project {
    type V = ProjectView;

    open spec fn view(&self) -> ProjectView {
        ProjectView {
            id: self.id@,
            name: self.name@,
            category: self.category@,
            source: self.source@,
            color: self.color@,
            description: text::optional(self.description),
            created_at: self.created_at@,
            updated_at: self.updated_at@,
        }
    }
}

impl Project {
    pub fn copy(&self) -> (result: Self)
        ensures
            result@ == self@,
    {
        Project {
            id: self.id.clone(),
            name: self.name.clone(),
            category: self.category.clone(),
            source: self.source.clone(),
            color: self.color.clone(),
            description: self.description.clone(),
            created_at: self.created_at.clone(),
            updated_at: self.updated_at.clone(),
        }
    }
}

/// A task within a project.
#[derive(Debug, PartialEq, Eq)]
pub struct Task {
    pub id: String,
    pub project_id: String,
    pub title: String,
    pub status: String,
    pub source: String,
    pub planned_due_at: Option<String>,
    pub created_at: String,
    pub updated_at: String,
}

/// What a `Task` holds.
#[verifier::ext_equal]
pub struct TaskView {
    pub id: Seq<char>,
    pub project_id: Seq<char>,
    pub title: Seq<char>,
    pub status: Seq<char>,
    pub source: Seq<char>,
    pub planned_due_at: Option<Seq<char>>,
    pub created_at: Seq<char>,
    pub updated_at: Seq<char>,
}

impl View for Task {
    type V = TaskView;

    open spec fn view(&self) -> TaskView {
        TaskView {
            id: self.id@,
            project_id: self.project_id@,
            title: self.title@,
            status: self.status@,
            source: self.source@,
            planned_due_at: text::optional(self.planned_due_at),
            created_at: self.created_at@,
            updated_at: self.updated_at@,
        }
    }
}

impl Task {
    pub fn copy(&self) -> (result: Self)
        ensures
            result@ == self@,
    {
        Task {
            id: self.id.clone(),
            project_id: self.project_id.clone(),
            title: self.title.clone(),
            status: self.status.clone(),
            source: self.source.clone(),
            planned_due_at: self.planned_due_at.clone(),
            created_at: self.created_at.clone(),
            updated_at: self.updated_at.clone(),
        }
    }
}

/// A category that work can fall under.
#[derive(Debug, PartialEq, Eq)]
pub struct CategoryOption {
    pub name: String,
    pub color: String,
    pub is_builtin: bool,
}

/// What a `CategoryOption` holds.
#[verifier::ext_equal]
pub struct CategoryView {
    pub name: Seq<char>,
    pub color: Seq<char>,
    pub is_builtin: bool,
}

impl View for CategoryOption {
    type V = CategoryView;

    open spec fn view(&self) -> CategoryView {
        CategoryView {
            name: self.name@,
            color: self.color@,
            is_builtin: self.is_builtin,
        }
    }
}

impl CategoryOption {
    pub fn copy(&self) -> (result: Self)
        ensures
            result@ == self@,
    {
        CategoryOption {
            name: self.name.clone(),
            color: self.color.clone(),
            is_builtin: self.is_builtin,
        }
    }
}

/// A project, and perhaps a task, to which new activity is assigned until it expires.
#[derive(Debug, PartialEq, Eq)]
pub struct ContextPin {
    pub project_id: String,
    pub project_name: String,
    pub task_id: Option<String>,
    pub task_title: Option<String>,
    pub category: String,
    pub expires_at: String,
}

/// What a `ContextPin` holds.
#[verifier::ext_equal]
pub struct ContextPinView {
    pub project_id: Seq<char>,
    pub project_name: Seq<char>,
    pub task_id: Option<Seq<char>>,
    pub task_title: Option<Seq<char>>,
    pub category: Seq<char>,
    pub expires_at: Seq<char>,
}

impl View for ContextPin {
    type V = ContextPinView;

    open spec fn view(&self) -> ContextPinView {
        ContextPinView {
            project_id: self.project_id@,
            project_name: self.project_name@,
            task_id: text::optional(self.task_id),
            task_title: text::optional(self.task_title),
            category: self.category@,
            expires_at: self.expires_at@,
        }
    }
}

impl ContextPin {
    pub fn copy(&self) -> (result: Self)
        ensures
            result@ == self@,
    {
        ContextPin {
            project_id: self.project_id.clone(),
            project_name: self.project_name.clone(),
            task_id: self.task_id.clone(),
            task_title: self.task_title.clone(),
            category: self.category.clone(),
            expires_at: self.expires_at.clone(),
        }
    }
}

/// Whether the last correction can be taken back.
#[derive(Debug, PartialEq, Eq)]
pub struct UndoStatus {
    pub available: bool,
    pub label: Option<String>,
    pub created_at: Option<String>,
}

/// What an `UndoStatus` holds.
#[verifier::ext_equal]
pub struct UndoStatusView {
    pub available: bool,
    pub label: Option<Seq<char>>,
    pub created_at: Option<Seq<char>>,
}

impl View for UndoStatus {
    type V = UndoStatusView;

    open spec fn view(&self) -> UndoStatusView {
        UndoStatusView {
            available: self.available,
            label: text::optional(self.label),
            created_at: text::optional(self.created_at),
        }
    }
}

impl UndoStatus {
    pub fn copy(&self) -> (result: Self)
        ensures
            result@ == self@,
    {
        UndoStatus {
            available: self.available,
            label: self.label.clone(),
            created_at: self.created_at.clone(),
        }
    }
}

/// One reason for the attribution of a session.
#[derive(Debug, PartialEq, Eq)]
pub struct EvidenceItem {
    pub kind: String,
    pub label: String,
    pub value: String,
    pub weight: i32,
}

/// What an `EvidenceItem` holds.
#[verifier::ext_equal]
pub struct EvidenceView {
    pub kind: Seq<char>,
    pub label: Seq<char>,
    pub value: Seq<char>,
    pub weight: i32,
}

impl View for EvidenceItem {
    type V = EvidenceView;

    open spec fn view(&self) -> EvidenceView {
        EvidenceView {
            kind: self.kind@,
            label: self.label@,
            value: self.value@,
            weight: self.weight,
        }
    }
}

impl EvidenceItem {
    pub fn copy(&self) -> (result: Self)
        ensures
            result@ == self@,
    {
        EvidenceItem {
            kind: self.kind.clone(),
            label: self.label.clone(),
            value: self.value.clone(),
            weight: self.weight,
        }
    }
}

/// A part of a session.
#[derive(Debug, PartialEq, Eq)]
pub struct Activity {
    pub id: String,
    pub session_id: String,
    pub source: String,
    pub title: String,
    pub summary: String,
    pub started_at: String,
    pub ended_at: String,
    pub evidence: Vec<EvidenceItem>,
}

/// What an `Activity` holds.
#[verifier::ext_equal]
pub struct ActivityView {
    pub id: Seq<char>,
    pub session_id: Seq<char>,
    pub source: Seq<char>,
    pub title: Seq<char>,
    pub summary: Seq<char>,
    pub started_at: Seq<char>,
    pub ended_at: Seq<char>,
    pub evidence: Seq<EvidenceView>,
}

impl View for Activity {
    type V = ActivityView;

    open spec fn view(&self) -> ActivityView {
        ActivityView {
            id: self.id@,
            session_id: self.session_id@,
            source: self.source@,
            title: self.title@,
            summary: self.summary@,
            started_at: self.started_at@,
            ended_at: self.ended_at@,
            evidence: evidence_views(self.evidence@),
        }
    }
}

impl Activity {
    pub fn copy(&self) -> (result: Self)
        ensures
            result@ == self@,
    {
        Activity {
            id: self.id.clone(),
            session_id: self.session_id.clone(),
            source: self.source.clone(),
            title: self.title.clone(),
            summary: self.summary.clone(),
            started_at: self.started_at.clone(),
            ended_at: self.ended_at.clone(),
            evidence: copy_evidence(&self.evidence),
        }
    }
}

/// A recorded stretch of work and what it is attributed to.
#[derive(Debug, PartialEq, Eq)]
pub struct WorkSession {
    pub id: String,
    pub started_at: String,
    pub ended_at: String,
    pub project_id: Option<String>,
    pub project_name: Option<String>,
    pub task_id: Option<String>,
    pub task_title: Option<String>,
    pub category: String,
    pub summary: String,
    pub confidence: i32,
    pub evidence: Vec<EvidenceItem>,
    pub user_confirmed: bool,
    pub source: String,
}

/// What a `WorkSession` holds.
#[verifier::ext_equal]
pub struct SessionView {
    pub id: Seq<char>,
    pub started_at: Seq<char>,
    pub ended_at: Seq<char>,
    pub project_id: Option<Seq<char>>,
    pub project_name: Option<Seq<char>>,
    pub task_id: Option<Seq<char>>,
    pub task_title: Option<Seq<char>>,
    pub category: Seq<char>,
    pub summary: Seq<char>,
    pub confidence: i32,
    pub evidence: Seq<EvidenceView>,
    pub user_confirmed: bool,
    pub source: Seq<char>,
}

impl View for WorkSession {
    type V = SessionView;

    open spec fn view(&self) -> SessionView {
        SessionView {
            id: self.id@,
            started_at: self.started_at@,
            ended_at: self.ended_at@,
            project_id: text::optional(self.project_id),
            project_name: text::optional(self.project_name),
            task_id: text::optional(self.task_id),
            task_title: text::optional(self.task_title),
            category: self.category@,
            summary: self.summary@,
            confidence: self.confidence,
            evidence: evidence_views(self.evidence@),
            user_confirmed: self.user_confirmed,
            source: self.source@,
        }
    }
}

impl WorkSession {
    pub fn copy(&self) -> (result: Self)
        ensures
            result@ == self@,
    {
        WorkSession {
            id: self.id.clone(),
            started_at: self.started_at.clone(),
            ended_at: self.ended_at.clone(),
            project_id: self.project_id.clone(),
            project_name: self.project_name.clone(),
            task_id: self.task_id.clone(),
            task_title: self.task_title.clone(),
            category: self.category.clone(),
            summary: self.summary.clone(),
            confidence: self.confidence,
            evidence: copy_evidence(&self.evidence),
            user_confirmed: self.user_confirmed,
            source: self.source.clone(),
        }
    }
}

/// A rule that attributes activity by what its matcher says of it.
#[derive(Debug, PartialEq, Eq)]
pub struct AttributionRule {
    pub id: String,
    pub name: String,
    pub priority: i32,
    pub matcher: JsonValue,
    pub project_id: Option<String>,
    pub task_id: Option<String>,
    pub category: String,
    pub created_from_correction: bool,
    pub enabled: bool,
}

/// What an `AttributionRule` holds.
#[verifier::ext_equal]
pub struct RuleView {
    pub id: Seq<char>,
    pub name: Seq<char>,
    pub priority: i32,
    pub matcher: JsonView,
    pub project_id: Option<Seq<char>>,
    pub task_id: Option<Seq<char>>,
    pub category: Seq<char>,
    pub created_from_correction: bool,
    pub enabled: bool,
}

impl View for AttributionRule {
    type V = RuleView;

    open spec fn view(&self) -> RuleView {
        RuleView {
            id: self.id@,
            name: self.name@,
            priority: self.priority,
            matcher: self.matcher@,
            project_id: text::optional(self.project_id),
            task_id: text::optional(self.task_id),
            category: self.category@,
            created_from_correction: self.created_from_correction,
            enabled: self.enabled,
        }
    }
}

/// An entry of a calendar or a plan.
#[derive(Debug, PartialEq, Eq)]
pub struct PlanItem {
    pub id: String,
    pub source: String,
    pub title: String,
    pub note: Option<String>,
    pub start_at: Option<String>,
    pub due_at: Option<String>,
    pub status: String,
    pub tags: Vec<String>,
    pub matched_session_ids: Vec<String>,
}

/// What a `PlanItem` holds.
#[verifier::ext_equal]
pub struct PlanItemView {
    pub id: Seq<char>,
    pub source: Seq<char>,
    pub title: Seq<char>,
    pub note: Option<Seq<char>>,
    pub start_at: Option<Seq<char>>,
    pub due_at: Option<Seq<char>>,
    pub status: Seq<char>,
    pub tags: Seq<Seq<char>>,
    pub matched_session_ids: Seq<Seq<char>>,
}

impl View for PlanItem {
    type V = PlanItemView;

    open spec fn view(&self) -> PlanItemView {
        PlanItemView {
            id: self.id@,
            source: self.source@,
            title: self.title@,
            note: text::optional(self.note),
            start_at: text::optional(self.start_at),
            due_at: text::optional(self.due_at),
            status: self.status@,
            tags: text::texts(self.tags@),
            matched_session_ids: text::texts(self.matched_session_ids@),
        }
    }
}

impl PlanItem {
    pub fn copy(&self) -> (result: Self)
        ensures
            result@ == self@,
    {
        PlanItem {
            id: self.id.clone(),
            source: self.source.clone(),
            title: self.title.clone(),
            note: self.note.clone(),
            start_at: self.start_at.clone(),
            due_at: self.due_at.clone(),
            status: self.status.clone(),
            tags: text::copy_list(&self.tags),
            matched_session_ids: text::copy_list(&self.matched_session_ids),
        }
    }
}

/// What a correction changes of a session.
#[derive(Debug, PartialEq, Eq)]
pub struct SessionPatch {
    pub summary: Option<String>,
    pub project_id: Option<String>,
    pub task_id: Option<String>,
    pub clear_project: Option<bool>,
    pub clear_task: Option<bool>,
    pub category: Option<String>,
    pub confidence: Option<i32>,
    pub user_confirmed: Option<bool>,
}

/// What a `SessionPatch` holds.
#[verifier::ext_equal]
pub struct SessionPatchView {
    pub summary: Option<Seq<char>>,
    pub project_id: Option<Seq<char>>,
    pub task_id: Option<Seq<char>>,
    pub clear_project: Option<bool>,
    pub clear_task: Option<bool>,
    pub category: Option<Seq<char>>,
    pub confidence: Option<i32>,
    pub user_confirmed: Option<bool>,
}

impl View for SessionPatch {
    type V = SessionPatchView;

    open spec fn view(&self) -> SessionPatchView {
        SessionPatchView {
            summary: text::optional(self.summary),
            project_id: text::optional(self.project_id),
            task_id: text::optional(self.task_id),
            clear_project: self.clear_project,
            clear_task: self.clear_task,
            category: text::optional(self.category),
            confidence: self.confidence,
            user_confirmed: self.user_confirmed,
        }
    }
}

impl SessionPatch {
    pub fn copy(&self) -> (result: Self)
        ensures
            result@ == self@,
    {
        SessionPatch {
            summary: self.summary.clone(),
            project_id: self.project_id.clone(),
            task_id: self.task_id.clone(),
            clear_project: self.clear_project,
            clear_task: self.clear_task,
            category: self.category.clone(),
            confidence: self.confidence,
            user_confirmed: self.user_confirmed,
        }
    }
}

/// What the user can set. The last five fields are kept for settings written by older releases
/// and have fixed values in normal form. `fps` is a score.
#[derive(Debug, PartialEq, Eq)]
pub struct AppSettings {
    pub language: String,
    pub theme: String,
    pub poll_interval_seconds: u32,
    pub heartbeat_seconds: u32,
    pub raw_event_retention_days: u32,
    pub idle_threshold_seconds: u32,
    pub idle_category: String,
    pub idle_project_name: String,
    pub passive_content_counts_as_active: bool,
    pub auto_maintenance: bool,
    pub auto_start: bool,
    pub launch_at_login: bool,
    pub quick_pause_enabled: bool,
    pub ai_mode: String,
    pub ai_provider: String,
    pub min_ai_session_minutes: u32,
    pub ai_base_url: String,
    pub ai_model: String,
    pub ai_secret_ref: Option<String>,
    pub backup_dir: Option<String>,
    pub capture_scope: String,
    pub fps: i32,
    pub chunk_minutes: u32,
    pub analysis_timing: String,
    pub temp_storage_limit_gb: u32,
}

/// What `AppSettings` holds.
#[verifier::ext_equal]
pub struct SettingsView {
    pub language: Seq<char>,
    pub theme: Seq<char>,
    pub poll_interval_seconds: u32,
    pub heartbeat_seconds: u32,
    pub raw_event_retention_days: u32,
    pub idle_threshold_seconds: u32,
    pub idle_category: Seq<char>,
    pub idle_project_name: Seq<char>,
    pub passive_content_counts_as_active: bool,
    pub auto_maintenance: bool,
    pub auto_start: bool,
    pub launch_at_login: bool,
    pub quick_pause_enabled: bool,
    pub ai_mode: Seq<char>,
    pub ai_provider: Seq<char>,
    pub min_ai_session_minutes: u32,
    pub ai_base_url: Seq<char>,
    pub ai_model: Seq<char>,
    pub ai_secret_ref: Option<Seq<char>>,
    pub backup_dir: Option<Seq<char>>,
    pub capture_scope: Seq<char>,
    pub fps: i32,
    pub chunk_minutes: u32,
    pub analysis_timing: Seq<char>,
    pub temp_storage_limit_gb: u32,
}

impl View for AppSettings {
    type V = SettingsView;

    open spec fn view(&self) -> SettingsView {
        SettingsView {
            language: self.language@,
            theme: self.theme@,
            poll_interval_seconds: self.poll_interval_seconds,
            heartbeat_seconds: self.heartbeat_seconds,
            raw_event_retention_days: self.raw_event_retention_days,
            idle_threshold_seconds: self.idle_threshold_seconds,
            idle_category: self.idle_category@,
            idle_project_name: self.idle_project_name@,
            passive_content_counts_as_active: self.passive_content_counts_as_active,
            auto_maintenance: self.auto_maintenance,
            auto_start: self.auto_start,
            launch_at_login: self.launch_at_login,
            quick_pause_enabled: self.quick_pause_enabled,
            ai_mode: self.ai_mode@,
            ai_provider: self.ai_provider@,
            min_ai_session_minutes: self.min_ai_session_minutes,
            ai_base_url: self.ai_base_url@,
            ai_model: self.ai_model@,
            ai_secret_ref: text::optional(self.ai_secret_ref),
            backup_dir: text::optional(self.backup_dir),
            capture_scope: self.capture_scope@,
            fps: self.fps,
            chunk_minutes: self.chunk_minutes,
            analysis_timing: self.analysis_timing@,
            temp_storage_limit_gb: self.temp_storage_limit_gb,
        }
    }
}

impl AppSettings {
    pub fn copy(&self) -> (result: Self)
        ensures
            result@ == self@,
    {
        AppSettings {
            language: self.language.clone(),
            theme: self.theme.clone(),
            poll_interval_seconds: self.poll_interval_seconds,
            heartbeat_seconds: self.heartbeat_seconds,
            raw_event_retention_days: self.raw_event_retention_days,
            idle_threshold_seconds: self.idle_threshold_seconds,
            idle_category: self.idle_category.clone(),
            idle_project_name: self.idle_project_name.clone(),
            passive_content_counts_as_active: self.passive_content_counts_as_active,
            auto_maintenance: self.auto_maintenance,
            auto_start: self.auto_start,
            launch_at_login: self.launch_at_login,
            quick_pause_enabled: self.quick_pause_enabled,
            ai_mode: self.ai_mode.clone(),
            ai_provider: self.ai_provider.clone(),
            min_ai_session_minutes: self.min_ai_session_minutes,
            ai_base_url: self.ai_base_url.clone(),
            ai_model: self.ai_model.clone(),
            ai_secret_ref: self.ai_secret_ref.clone(),
            backup_dir: self.backup_dir.clone(),
            capture_scope: self.capture_scope.clone(),
            fps: self.fps,
            chunk_minutes: self.chunk_minutes,
            analysis_timing: self.analysis_timing.clone(),
            temp_storage_limit_gb: self.temp_storage_limit_gb,
        }
    }
}

/// Where and how the ledger is synchronised.
#[derive(Debug, PartialEq, Eq)]
pub struct GithubSyncConfig {
    pub enabled: bool,
    pub owner: String,
    pub repo: String,
    pub branch: String,
    pub file_path: String,
    pub auto_sync: bool,
    pub interval_minutes: u32,
    pub device_id: String,
    pub device_name: String,
    pub token_secret_ref: String,
    pub key_secret_ref: String,
    pub last_synced_at: Option<String>,
    pub last_remote_sha: Option<String>,
    pub last_error: Option<String>,
}

/// What a `GithubSyncConfig` holds.
#[verifier::ext_equal]
pub struct SyncConfigView {
    pub enabled: bool,
    pub owner: Seq<char>,
    pub repo: Seq<char>,
    pub branch: Seq<char>,
    pub file_path: Seq<char>,
    pub auto_sync: bool,
    pub interval_minutes: u32,
    pub device_id: Seq<char>,
    pub device_name: Seq<char>,
    pub token_secret_ref: Seq<char>,
    pub key_secret_ref: Seq<char>,
    pub last_synced_at: Option<Seq<char>>,
    pub last_remote_sha: Option<Seq<char>>,
    pub last_error: Option<Seq<char>>,
}

impl View for GithubSyncConfig {
    type V = SyncConfigView;

    open spec fn view(&self) -> SyncConfigView {
        SyncConfigView {
            enabled: self.enabled,
            owner: self.owner@,
            repo: self.repo@,
            branch: self.branch@,
            file_path: self.file_path@,
            auto_sync: self.auto_sync,
            interval_minutes: self.interval_minutes,
            device_id: self.device_id@,
            device_name: self.device_name@,
            token_secret_ref: self.token_secret_ref@,
            key_secret_ref: self.key_secret_ref@,
            last_synced_at: text::optional(self.last_synced_at),
            last_remote_sha: text::optional(self.last_remote_sha),
            last_error: text::optional(self.last_error),
        }
    }
}

impl GithubSyncConfig {
    pub fn copy(&self) -> (result: Self)
        ensures
            result@ == self@,
    {
        GithubSyncConfig {
            enabled: self.enabled,
            owner: self.owner.clone(),
            repo: self.repo.clone(),
            branch: self.branch.clone(),
            file_path: self.file_path.clone(),
            auto_sync: self.auto_sync,
            interval_minutes: self.interval_minutes,
            device_id: self.device_id.clone(),
            device_name: self.device_name.clone(),
            token_secret_ref: self.token_secret_ref.clone(),
            key_secret_ref: self.key_secret_ref.clone(),
            last_synced_at: self.last_synced_at.clone(),
            last_remote_sha: self.last_remote_sha.clone(),
            last_error: self.last_error.clone(),
        }
    }
}

/// How many rows of each kind a snapshot holds.
#[derive(Clone, Copy, Debug, Default, PartialEq, Eq, Structural)]
pub struct SyncCounts {
    pub categories: u32,
    pub projects: u32,
    pub tasks: u32,
    pub sessions: u32,
    pub rules: u32,
}

/// A device that takes part in the synchronisation.
#[derive(Debug, PartialEq, Eq)]
pub struct SyncDeviceInfo {
    pub id: String,
    pub name: String,
    pub last_seen_at: String,
}

/// What a `SyncDeviceInfo` holds.
#[verifier::ext_equal]
pub struct SyncDeviceView {
    pub id: Seq<char>,
    pub name: Seq<char>,
    pub last_seen_at: Seq<char>,
}

impl View for SyncDeviceInfo {
    type V = SyncDeviceView;

    open spec fn view(&self) -> SyncDeviceView {
        SyncDeviceView {
            id: self.id@,
            name: self.name@,
            last_seen_at: self.last_seen_at@,
        }
    }
}

impl SyncDeviceInfo {
    pub fn copy(&self) -> (result: Self)
        ensures
            result@ == self@,
    {
        SyncDeviceInfo {
            id: self.id.clone(),
            name: self.name.clone(),
            last_seen_at: self.last_seen_at.clone(),
        }
    }
}

/// The state of the synchronisation as shown to the user.
#[derive(Debug, PartialEq, Eq)]
pub struct GithubSyncStatus {
    pub config: GithubSyncConfig,
    pub token_configured: bool,
    pub key_configured: bool,
    pub ready: bool,
    pub counts: SyncCounts,
    pub devices: Vec<SyncDeviceInfo>,
}

/// What one synchronisation did.
#[derive(Debug, PartialEq, Eq)]
pub struct GithubSyncResult {
    pub synced_at: String,
    pub remote_sha: String,
    pub uploaded_bytes: u64,
    pub downloaded_bytes: u64,
    pub counts: SyncCounts,
    pub message: String,
}

} // verus!
