//! Plan executor: an explicit state machine with abort and logical
//! rollback.
//!
//! Planning stays in the planner. The machine records every admit, reject,
//! invoke, confirm, fail, retry, replan, skip, abort and rollback decision,
//! so a replay of the decision log reconstructs the same sequence.
//! Confirmed mutative actions are not repeated unless the policy explicitly
//! allows it.

use vstd::prelude::*;
use vstd::utf8::encode_utf8;
use crate::fingerprint::{fingerprint_text, fnv, text_fingerprint};
use crate::order::{lemma_text_lt_asymmetric, lemma_text_lt_total, lemma_text_lt_transitive, text_less, text_lt};
use crate::permissions::{gate_answer, gate_reaches, AuthorizedToolRuntime};
use crate::planner::{
    extends, lemma_extends_self, assoc, first_key_at, first_step_at, lemma_assoc_absent, lemma_assoc_at, lemma_assoc_insert, lemma_assoc_update,
    lemma_first_key_exists, lemma_first_step_at, marked, with_status, step_status, header_of, lemma_gate_answer_same, Gate,
    budget_valid, plan_valid, Plan, PlanAction, PlanStep, PlanStepStatus, Planner, PlannerError, PlannerTask, MAX_PLAN_STEPS, MAX_PLAN_TOOL_CALLS};
use crate::text::{chars_of, dec, dec_signed, join2, push_char, push_i64, push_str, push_u64, same_text, string_from};
use crate::tool_protocol::{ToolErrorSeverity, ToolRequest, ToolResponse, ToolValue};
use crate::tool_registry::{invocations_after, has_tool, tool_mutative, tool_timeout, RegistryEntry, ReferenceToolExecutor, ToolRegistry};
use crate::trace::{SessionTrace, TraceEvent, TraceKind, AGENT_EVAL_SCHEMA_VERSION};

verus! {

pub const EXECUTOR_SCHEMA_VERSION: u32 = 1;

#[derive(Clone, Copy, Debug, PartialEq, Eq)]
pub enum ExecutorStepState {
    Pending,
    Running,
    Done,
    Failed,
    Skipped,
    Cancelled,
}

impl ExecutorStepState {
    pub open spec fn spec_name(self) -> Seq<char> {
        match self {
            ExecutorStepState::Pending => "pending"@,
            ExecutorStepState::Running => "running"@,
            ExecutorStepState::Done => "done"@,
            ExecutorStepState::Failed => "failed"@,
            ExecutorStepState::Skipped => "skipped"@,
            ExecutorStepState::Cancelled => "cancelled"@,
        }
    }

    pub fn as_str(self) -> (r: &'static str)
        ensures
            r@ == self.spec_name(),
    {
        match self {
            ExecutorStepState::Pending => "pending",
            ExecutorStepState::Running => "running",
            ExecutorStepState::Done => "done",
            ExecutorStepState::Failed => "failed",
            ExecutorStepState::Skipped => "skipped",
            ExecutorStepState::Cancelled => "cancelled",
        }
    }

    pub open spec fn spec_terminal(self) -> bool {
        !(self is Pending || self is Running)
    }

    /// Done, failed, skipped and cancelled steps are finished.
    pub fn is_terminal(self) -> (r: bool)
        ensures
            r == self.spec_terminal(),
    {
        match self {
            ExecutorStepState::Pending | ExecutorStepState::Running => false,
            _ => true,
        }
    }
}

#[derive(Clone, Copy, Debug, PartialEq, Eq)]
pub enum MachineStatus {
    Idle,
    Running,
    Succeeded,
    Failed,
    Cancelled,
}

impl MachineStatus {
    pub open spec fn spec_name(self) -> Seq<char> {
        match self {
            MachineStatus::Idle => "idle"@,
            MachineStatus::Running => "running"@,
            MachineStatus::Succeeded => "succeeded"@,
            MachineStatus::Failed => "failed"@,
            MachineStatus::Cancelled => "cancelled"@,
        }
    }

    pub fn as_str(self) -> (r: &'static str)
        ensures
            r@ == self.spec_name(),
    {
        match self {
            MachineStatus::Idle => "idle",
            MachineStatus::Running => "running",
            MachineStatus::Succeeded => "succeeded",
            MachineStatus::Failed => "failed",
            MachineStatus::Cancelled => "cancelled",
        }
    }
}

#[derive(Clone, Copy, Debug, PartialEq, Eq)]
pub enum DecisionKind {
    Admit,
    RejectDependency,
    RejectBudget,
    RejectMutationReplay,
    InvokeTool,
    Confirm,
    Fail,
    Retry,
    Replan,
    Skip,
    Abort,
    Rollback,
    Finish,
}

impl DecisionKind {
    pub open spec fn spec_name(self) -> Seq<char> {
        match self {
            DecisionKind::Admit => "admit"@,
            DecisionKind::RejectDependency => "reject-dependency"@,
            DecisionKind::RejectBudget => "reject-budget"@,
            DecisionKind::RejectMutationReplay => "reject-mutation-replay"@,
            DecisionKind::InvokeTool => "invoke-tool"@,
            DecisionKind::Confirm => "confirm"@,
            DecisionKind::Fail => "fail"@,
            DecisionKind::Retry => "retry"@,
            DecisionKind::Replan => "replan"@,
            DecisionKind::Skip => "skip"@,
            DecisionKind::Abort => "abort"@,
            DecisionKind::Rollback => "rollback"@,
            DecisionKind::Finish => "finish"@,
        }
    }

    pub fn as_str(self) -> (r: &'static str)
        ensures
            r@ == self.spec_name(),
    {
        match self {
            DecisionKind::Admit => "admit",
            DecisionKind::RejectDependency => "reject-dependency",
            DecisionKind::RejectBudget => "reject-budget",
            DecisionKind::RejectMutationReplay => "reject-mutation-replay",
            DecisionKind::InvokeTool => "invoke-tool",
            DecisionKind::Confirm => "confirm",
            DecisionKind::Fail => "fail",
            DecisionKind::Retry => "retry",
            DecisionKind::Replan => "replan",
            DecisionKind::Skip => "skip",
            DecisionKind::Abort => "abort",
            DecisionKind::Rollback => "rollback",
            DecisionKind::Finish => "finish",
        }
    }
}

#[derive(Clone, Debug, PartialEq, Eq)]
pub struct DecisionRecord {
    pub seq: u32,
    pub step_id: String,
    pub from: ExecutorStepState,
    pub to: ExecutorStepState,
    pub kind: DecisionKind,
    pub detail: String,
}

/// Escaping of one character in a decision line.
pub open spec fn log_esc_char(c: char) -> Seq<char> {
    if c == '\\' {
        seq!['\\', '\\']
    } else if c == '|' {
        seq!['\\', '|']
    } else if c == '\n' {
        seq!['\\', 'n']
    } else if c == '\r' {
        seq!['\\', 'r']
    } else {
        seq![c]
    }
}

/// Backslash escaping of `\`, `|`, newline and carriage return.
pub open spec fn log_esc(s: Seq<char>) -> Seq<char>
    decreases s.len(),
{
    if s.len() == 0 {
        Seq::empty()
    } else {
        log_esc(s.drop_last()) + log_esc_char(s.last())
    }
}

pub fn escape_log_text(s: &str) -> (r: String)
    ensures
        r@ == log_esc(s@),
{
    let cs = chars_of(s);
    let mut out = String::new();
    let mut i: usize = 0;
    while i < cs.len()
        invariant
            cs@ == s@,
            i <= cs.len(),
            out@ == log_esc(cs@.subrange(0, i as int)),
        decreases cs.len() - i,
    {
        let c = cs[i];
        assert(cs@.subrange(0, i + 1).drop_last() =~= cs@.subrange(0, i as int));
        if c == '\\' {
            push_char(&mut out, '\\');
            push_char(&mut out, '\\');
        } else if c == '|' {
            push_char(&mut out, '\\');
            push_char(&mut out, '|');
        } else if c == '\n' {
            push_char(&mut out, '\\');
            push_char(&mut out, 'n');
        } else if c == '\r' {
            push_char(&mut out, '\\');
            push_char(&mut out, 'r');
        } else {
            push_char(&mut out, c);
        }
        i = i + 1;
        assert(out@ =~= log_esc(cs@.subrange(0, i as int)));
    }
    assert(cs@.subrange(0, cs.len() as int) =~= s@);
    out
}

/// Decimal text padded with zeros to at least four digits (`{:04}`).
pub open spec fn pad4(n: nat) -> Seq<char> {
    let d = dec(n);
    if d.len() >= 4 { d } else { Seq::new((4 - d.len()) as nat, |i: int| '0') + d }
}

fn push_pad4(out: &mut String, n: u32)
    ensures
        final(out)@ == old(out)@ + pad4(n as nat),
{
    let mut d = String::new();
    push_u64(&mut d, n as u64);
    let len = d.as_str().unicode_len();
    let ghost before = out@;
    let mut k: usize = len;
    while k < 4
        invariant
            len == dec(n as nat).len(),
            len <= k <= 4 || (k == len && len >= 4),
            out@ == before + Seq::new((k - len) as nat, |i: int| '0'),
        decreases 4 - k,
    {
        push_char(out, '0');
        k = k + 1;
        assert(out@ =~= before + Seq::new((k - len) as nat, |i: int| '0'));
    }
    push_str(out, d.as_str());
    assert(out@ =~= before + pad4(n as nat));
}

pub open spec fn record_line(r: DecisionRecord) -> Seq<char> {
    pad4(r.seq as nat) + "|"@ + log_esc(r.step_id@) + "|"@ + r.from.spec_name() + "|"@ + r.to.spec_name() + "|"@
        + r.kind.spec_name() + "|"@ + log_esc(r.detail@) + "\n"@
}

impl DecisionRecord {
    /// `seq|step|from|to|kind|detail`, with the sequence number padded to
    /// four digits.
    pub fn canonical(&self) -> (r: String)
        ensures
            r@ == record_line(*self),
    {
        let mut out = String::new();
        push_pad4(&mut out, self.seq);
        push_str(&mut out, "|");
        push_str(&mut out, escape_log_text(self.step_id.as_str()).as_str());
        push_str(&mut out, "|");
        push_str(&mut out, self.from.as_str());
        push_str(&mut out, "|");
        push_str(&mut out, self.to.as_str());
        push_str(&mut out, "|");
        push_str(&mut out, self.kind.as_str());
        push_str(&mut out, "|");
        push_str(&mut out, escape_log_text(self.detail.as_str()).as_str());
        push_str(&mut out, "\n");
        assert(out@ =~= record_line(*self));
        out
    }
}

#[derive(Clone, Debug, PartialEq, Eq)]
pub struct StepLedgerEntry {
    pub step_id: String,
    pub action_fingerprint: u64,
    pub mutative: bool,
    pub confirmed: bool,
    pub invocations: u32,
}

#[derive(Clone, Debug, PartialEq, Eq)]
pub struct ExecutorPolicy {
    pub max_retries_per_step: u32,
    pub allow_mutative_replay: bool,
    pub abort_after_steps: Option<usize>,
    pub rollback_before_confirm: bool,
    pub mutative_tools: Vec<String>,
}

impl ExecutorPolicy {
    /// One retry per step, no mutative replay, no abort, no rollback, no
    /// extra mutative tools.
    pub fn default() -> (r: ExecutorPolicy)
        ensures
            r.max_retries_per_step == 1,
            !r.allow_mutative_replay,
            r.abort_after_steps is None,
            !r.rollback_before_confirm,
            r.mutative_tools@.len() == 0,
    {
        ExecutorPolicy {
            max_retries_per_step: 1,
            allow_mutative_replay: false,
            abort_after_steps: None,
            rollback_before_confirm: false,
            mutative_tools: Vec::new(),
        }
    }
}

#[derive(Clone, Debug, PartialEq, Eq)]
pub struct ExecutorReport {
    pub success: bool,
    pub status: MachineStatus,
    pub answer: Option<String>,
    pub plan_revision: u32,
    pub steps_executed: usize,
    pub tool_calls: usize,
    pub retries: usize,
    pub recoverable_errors: usize,
    pub replans: usize,
    pub rollbacks: usize,
    pub skipped: usize,
    pub cancelled: usize,
    pub declared_timeout_ms: u64,
    pub decisions: Vec<DecisionRecord>,
    pub error: Option<String>,
}

pub open spec fn records_text(rs: Seq<DecisionRecord>, n: nat) -> Seq<char>
    decreases n,
{
    if n == 0 || n > rs.len() {
        Seq::empty()
    } else {
        records_text(rs, (n - 1) as nat) + record_line(rs[n - 1])
    }
}

/// The decision log of a report.
pub open spec fn log_text(r: ExecutorReport) -> Seq<char> {
    "auralis_executor="@ + dec(EXECUTOR_SCHEMA_VERSION as nat) + "\n"@ + "status="@ + r.status.spec_name() + "\n"@
        + "success="@ + crate::protocol_text::bool_word(r.success) + "\n"@ + "revision="@ + dec(r.plan_revision as nat)
        + "\n"@ + records_text(r.decisions@, r.decisions@.len())
}

/// Trace kind of a decision kind.
pub open spec fn trace_kind_of(k: DecisionKind) -> TraceKind {
    match k {
        DecisionKind::InvokeTool => TraceKind::ToolCall,
        DecisionKind::Confirm | DecisionKind::Finish => TraceKind::ToolResult,
        DecisionKind::Fail | DecisionKind::RejectDependency | DecisionKind::RejectBudget
            | DecisionKind::RejectMutationReplay => TraceKind::Error,
        DecisionKind::Replan | DecisionKind::Admit => TraceKind::Plan,
        _ => TraceKind::Timing,
    }
}

fn trace_kind(k: DecisionKind) -> (r: TraceKind)
    ensures
        r == trace_kind_of(k),
{
    match k {
        DecisionKind::InvokeTool => TraceKind::ToolCall,
        DecisionKind::Confirm | DecisionKind::Finish => TraceKind::ToolResult,
        DecisionKind::Fail | DecisionKind::RejectDependency | DecisionKind::RejectBudget
            | DecisionKind::RejectMutationReplay => TraceKind::Error,
        DecisionKind::Replan | DecisionKind::Admit => TraceKind::Plan,
        _ => TraceKind::Timing,
    }
}

/// Trace event of one decision.
pub open spec fn event_of(r: DecisionRecord, e: TraceEvent) -> bool {
    &&& e.step_id@ == r.step_id@
    &&& e.call_id@ == "d"@ + dec(r.seq as nat)
    &&& e.kind == trace_kind_of(r.kind)
    &&& e.payload@ == r.kind.spec_name() + ":"@ + r.from.spec_name() + "->"@ + r.to.spec_name() + ":"@ + r.detail@
    &&& e.elapsed_ms == 1
}

impl ExecutorReport {
    /// Schema, status, outcome and revision, then one line per decision.
    pub fn decision_log(&self) -> (r: String)
        ensures
            r@ == log_text(*self),
    {
        let mut out = string_from("auralis_executor=");
        push_u64(&mut out, EXECUTOR_SCHEMA_VERSION as u64);
        push_str(&mut out, "\n");
        push_str(&mut out, "status=");
        push_str(&mut out, self.status.as_str());
        push_str(&mut out, "\n");
        push_str(&mut out, "success=");
        push_str(&mut out, crate::protocol_text::bool_text(self.success));
        push_str(&mut out, "\n");
        push_str(&mut out, "revision=");
        push_u64(&mut out, self.plan_revision as u64);
        push_str(&mut out, "\n");
        let ghost head = out@;
        let mut i: usize = 0;
        while i < self.decisions.len()
            invariant
                i <= self.decisions.len(),
                out@ == head + records_text(self.decisions@, i as nat),
            decreases self.decisions.len() - i,
        {
            let line = self.decisions[i].canonical();
            push_str(&mut out, line.as_str());
            i = i + 1;
            assert(out@ =~= head + records_text(self.decisions@, i as nat));
        }
        assert(log_text(*self) =~= head + records_text(self.decisions@, self.decisions@.len()));
        out
    }

    /// FNV-1a of the decision log.
    pub fn decision_fingerprint(&self) -> (r: u64)
        ensures
            r == text_fingerprint(log_text(*self)),
    {
        let log = self.decision_log();
        fingerprint_text(log.as_str())
    }

    /// A session trace with one event per decision, in order.
    pub fn to_trace(&self, session_id: &str) -> (r: SessionTrace)
        ensures
            r.session_id@ == session_id@,
            r.schema_version == AGENT_EVAL_SCHEMA_VERSION,
            r.events@.len() == self.decisions@.len(),
            forall|i: int| 0 <= i < r.events@.len() ==> event_of(self.decisions@[i], #[trigger] r.events@[i]),
            r.commit@ == "local"@,
            r.config@ == "executor-"@ + dec(EXECUTOR_SCHEMA_VERSION as nat),
            r.model@ == "mock"@,
            r.checkpoint@ == "none"@,
    {
        let mut events: Vec<TraceEvent> = Vec::new();
        let mut i: usize = 0;
        while i < self.decisions.len()
            invariant
                i <= self.decisions.len(),
                events@.len() == i,
                forall|k: int| 0 <= k < i ==> event_of(self.decisions@[k], #[trigger] events@[k]),
            decreases self.decisions.len() - i,
        {
            let d = &self.decisions[i];
            let mut call_id = string_from("d");
            push_u64(&mut call_id, d.seq as u64);
            let mut payload = string_from(d.kind.as_str());
            push_str(&mut payload, ":");
            push_str(&mut payload, d.from.as_str());
            push_str(&mut payload, "->");
            push_str(&mut payload, d.to.as_str());
            push_str(&mut payload, ":");
            push_str(&mut payload, d.detail.as_str());
            assert(payload@ =~= d.kind.spec_name() + ":"@ + d.from.spec_name() + "->"@ + d.to.spec_name() + ":"@ + d.detail@);
            events.push(TraceEvent {
                step_id: d.step_id.clone(),
                call_id,
                kind: trace_kind(d.kind),
                payload,
                elapsed_ms: 1,
            });
            i = i + 1;
        }
        let mut config = string_from("executor-");
        push_u64(&mut config, EXECUTOR_SCHEMA_VERSION as u64);
        SessionTrace {
            session_id: string_from(session_id),
            schema_version: AGENT_EVAL_SCHEMA_VERSION,
            commit: string_from("local"),
            config,
            model: string_from("mock"),
            checkpoint: string_from("none"),
            events,
        }
    }
}

#[derive(Clone, Debug, PartialEq, Eq)]
pub enum ExecutorError {
    InvalidPlan(String),
    Budget(String),
    Dependency(String),
    MutationReplay(String),
    Aborted,
    NoAnswer,
}

impl ExecutorError {
    /// Human-readable text of the error (its `Display` form).
    pub open spec fn spec_message(self) -> Seq<char> {
        match self {
            ExecutorError::InvalidPlan(v) => "invalid plan: "@ + v@,
            ExecutorError::Budget(v) => "executor budget exceeded: "@ + v@,
            ExecutorError::Dependency(v) => "executor dependency error: "@ + v@,
            ExecutorError::MutationReplay(v) => "mutative replay refused: "@ + v@,
            ExecutorError::Aborted => "executor aborted"@,
            ExecutorError::NoAnswer => "executor ended without final answer"@,
        }
    }

    pub fn message(&self) -> (r: String)
        ensures
            r@ == self.spec_message(),
            r@ == (match self {
                ExecutorError::InvalidPlan(v) => "invalid plan: "@ + v@,
                ExecutorError::Budget(v) => "executor budget exceeded: "@ + v@,
                ExecutorError::Dependency(v) => "executor dependency error: "@ + v@,
                ExecutorError::MutationReplay(v) => "mutative replay refused: "@ + v@,
                ExecutorError::Aborted => "executor aborted"@,
                ExecutorError::NoAnswer => "executor ended without final answer"@,
            }),
    {
        match self {
            ExecutorError::InvalidPlan(v) => join2("invalid plan: ", v.as_str()),
            ExecutorError::Budget(v) => join2("executor budget exceeded: ", v.as_str()),
            ExecutorError::Dependency(v) => join2("executor dependency error: ", v.as_str()),
            ExecutorError::MutationReplay(v) => join2("mutative replay refused: ", v.as_str()),
            ExecutorError::Aborted => string_from("executor aborted"),
            ExecutorError::NoAnswer => string_from("executor ended without final answer"),
        }
    }
}


// ---------------------------------------------------------------------------
// The machine
// ---------------------------------------------------------------------------

/// Decision sequence numbers are their positions in the log (saturating at
/// `u32::MAX`), so a log can be replayed in order.
pub open spec fn seq_law(ds: Seq<DecisionRecord>) -> bool {
    forall|i: int| 0 <= i < ds.len() ==> (#[trigger] ds[i]).seq as int == (if i < u32::MAX { i } else { u32::MAX as int })
}

pub open spec fn has_kind(ds: Seq<DecisionRecord>, k: DecisionKind) -> bool {
    exists|i: int| 0 <= i < ds.len() && (#[trigger] ds[i]).kind == k
}

/// What every report of the executor satisfies.
pub open spec fn report_ok(r: ExecutorReport, policy: ExecutorPolicy) -> bool {
    &&& seq_law(r.decisions@)
    &&& (r.success <==> r.status == MachineStatus::Succeeded)
    &&& (r.success <==> r.answer is Some)
    &&& (r.success <==> r.error is None)
    &&& (r.status == MachineStatus::Succeeded || r.status == MachineStatus::Failed || r.status == MachineStatus::Cancelled)
    &&& r.tool_calls <= MAX_PLAN_TOOL_CALLS
    &&& r.retries <= r.tool_calls
    &&& r.retries <= r.recoverable_errors
    &&& r.replans <= r.recoverable_errors <= r.tool_calls
    &&& (policy.rollback_before_confirm ==> !has_kind(r.decisions@, DecisionKind::Confirm))
    &&& (r.status == MachineStatus::Cancelled ==> has_kind(r.decisions@, DecisionKind::Abort)
        || has_kind(r.decisions@, DecisionKind::Rollback))
}

/// A ledger entry as the machine reads it: step id, action fingerprint,
/// mutative, confirmed, invocations.
pub type LedgerView = (Seq<char>, u64, bool, bool, u32);

pub open spec fn ledger_view(e: StepLedgerEntry) -> LedgerView {
    (e.step_id@, e.action_fingerprint, e.mutative, e.confirmed, e.invocations)
}

/// Where an executor run stands before a step: the plan as revised (its
/// header) with its steps, the state, retry count and result of each step
/// id, the ledger, the counters, and how many tool responses and planner
/// revisions have been used.
pub struct MachineModel {
    pub plan: Plan,
    pub steps: Seq<PlanStep>,
    pub states: Map<Seq<char>, ExecutorStepState>,
    pub retries: Map<Seq<char>, u32>,
    pub results: Map<Seq<char>, String>,
    pub ledger: Seq<LedgerView>,
    pub cursor: nat,
    pub steps_executed: nat,
    pub tool_calls: nat,
    pub retry_count: nat,
    pub recoverable_errors: nat,
    pub replans: nat,
    pub declared: u64,
    pub calls: nat,
    pub revisions: nat,
    pub invocations: nat,
}

/// How an executor run ends. A failed run's error reads `error` where it
/// is `Some`; where it is `None` the error names a check whose text is not
/// fixed here (a plan or revision that fails validation, a dependency).
pub struct MachineEnd {
    pub success: bool,
    pub status: MachineStatus,
    pub answer: Option<String>,
    pub error: Option<Seq<char>>,
    pub revision: u32,
    pub steps_executed: nat,
    pub tool_calls: nat,
    pub retries: nat,
    pub recoverable_errors: nat,
    pub replans: nat,
    pub declared: u64,
    pub invocations: nat,
    pub stray: bool,
}

pub open spec fn mget<V>(m: Map<Seq<char>, V>, k: Seq<char>) -> Option<V> {
    if m.dom().contains(k) { Some(m[k]) } else { None }
}

/// Where an executor run starts: every step pending.
pub open spec fn machine_start(plan: Plan, invocations: nat) -> MachineModel {
    MachineModel {
        plan,
        steps: plan.steps@,
        states: Map::new(|k: Seq<char>| exists|j: int| 0 <= j < plan.steps@.len() && plan.steps@[j].id@ == k,
            |k: Seq<char>| ExecutorStepState::Pending),
        retries: Map::empty(),
        results: Map::empty(),
        ledger: Seq::empty(),
        cursor: 0,
        steps_executed: 0,
        tool_calls: 0,
        retry_count: 0,
        recoverable_errors: 0,
        replans: 0,
        declared: 0,
        calls: 0,
        revisions: 0,
        invocations,
    }
}

/// A run that ends now with the given status, answer and error.
pub open spec fn machine_ended(s: MachineModel, status: MachineStatus, answer: Option<String>, error: Option<Seq<char>>) -> MachineEnd {
    MachineEnd {
        success: status == MachineStatus::Succeeded,
        status,
        answer,
        error,
        revision: s.plan.revision,
        steps_executed: s.steps_executed,
        tool_calls: s.tool_calls,
        retries: s.retry_count,
        recoverable_errors: s.recoverable_errors,
        replans: s.replans,
        declared: s.declared,
        invocations: s.invocations,
        stray: false,
    }
}

/// A run whose tool call or revision is not what authorization, the
/// reference executor or the planner give.
pub open spec fn machine_stray(s: MachineModel) -> MachineEnd {
    MachineEnd { stray: true, ..machine_ended(s, MachineStatus::Failed, None, None) }
}

/// The model with step `id` in `state`, mirrored onto the plan's steps.
pub open spec fn model_set(s: MachineModel, id: Seq<char>, state: ExecutorStepState) -> MachineModel {
    MachineModel { states: s.states.insert(id, state), steps: marked(s.steps, id, mirrored_status(state)), ..s }
}

/// Every dependency of the first step named `id` is done.
pub open spec fn model_deps_done(s: MachineModel, id: Seq<char>) -> bool {
    exists|k: int| #[trigger] first_step_at(s.steps, id, k) && forall|d: int| 0 <= d < s.steps[k].depends_on@.len()
        ==> mget(s.states, (#[trigger] s.steps[k].depends_on@[d])@) == Some(ExecutorStepState::Done)
}

/// The ledger after one more invocation of `id`.
pub open spec fn ledger_touched(l: Seq<LedgerView>, id: Seq<char>, fp: u64, mutative: bool) -> Seq<LedgerView> {
    if exists|k: int| 0 <= k < l.len() && l[k].0 == id {
        let k = choose|k: int| 0 <= k < l.len() && l[k].0 == id && forall|j: int| 0 <= j < k ==> l[j].0 != id;
        l.update(k, (l[k].0, l[k].1, l[k].2, l[k].3, if l[k].4 < u32::MAX { (l[k].4 + 1) as u32 } else { u32::MAX }))
    } else {
        l.push((id, fp, mutative, false, 1u32))
    }
}

/// The ledger with the entry of `id` confirmed.
pub open spec fn ledger_confirmed(l: Seq<LedgerView>, id: Seq<char>) -> Seq<LedgerView> {
    if exists|k: int| 0 <= k < l.len() && l[k].0 == id {
        let k = choose|k: int| 0 <= k < l.len() && l[k].0 == id && forall|j: int| 0 <= j < k ==> l[j].0 != id;
        l.update(k, (l[k].0, l[k].1, l[k].2, true, l[k].4))
    } else {
        l
    }
}

/// A confirmed mutative action with this fingerprint is in the ledger.
pub open spec fn ledger_blocks(l: Seq<LedgerView>, fp: u64) -> bool {
    exists|i: int| 0 <= i < l.len() && (#[trigger] l[i]).3 && l[i].2 && l[i].1 == fp
}

/// The policy lists `name` as mutative.
pub open spec fn policy_lists(policy: ExecutorPolicy, name: Seq<char>) -> bool {
    exists|i: int| 0 <= i < policy.mutative_tools@.len() && (#[trigger] policy.mutative_tools@[i])@ == name
}

/// The states after the steps of a revision are synced: known ids keep
/// their state, new step ids are pending.
pub open spec fn model_synced(states: Map<Seq<char>, ExecutorStepState>, steps: Seq<PlanStep>) -> Map<Seq<char>, ExecutorStepState> {
    Map::new(|k: Seq<char>| states.dom().contains(k) || exists|j: int| 0 <= j < steps.len() && steps[j].id@ == k,
        |k: Seq<char>| if states.dom().contains(k) { states[k] } else { ExecutorStepState::Pending })
}

/// What running the tool step `q` of step `id` does: `Ok` with the model
/// to go on from, or `Err` with how the run ends.
pub open spec fn tool_step_outcome<P: Planner>(
    planner: P,
    task: PlannerTask,
    g: Gate,
    reg: Seq<RegistryEntry>,
    policy: ExecutorPolicy,
    s: MachineModel,
    id: Seq<char>,
    q: ToolRequest,
    responses: Seq<ToolResponse>,
    revisions: Seq<Result<Option<Plan>, PlannerError>>,
) -> Result<MachineModel, MachineEnd> {
    if s.tool_calls >= s.plan.budget.max_tool_calls {
        Err(machine_ended(s, MachineStatus::Failed, None, Some("executor budget exceeded: "@ + "tool-call budget"@)))
    } else if !has_tool(reg, q.tool_name@, q.tool_version) {
        Err(machine_ended(s, MachineStatus::Failed, None, Some("invalid plan: "@ + "unknown planned tool"@)))
    } else {
        let decl = crate::planner::sat_add(s.declared, tool_timeout(reg, q.tool_name@, q.tool_version));
        let mutative = tool_mutative(reg, q.tool_name@, q.tool_version) || policy_lists(policy, q.tool_name@);
        let fp = text_fingerprint(action_blob(q));
        let s1 = MachineModel { declared: decl, ..s };
        if decl > s.plan.budget.max_timeout_ms {
            Err(machine_ended(s1, MachineStatus::Failed, None, Some("executor budget exceeded: "@ + "timeout budget"@)))
        } else if mutative && !policy.allow_mutative_replay && ledger_blocks(s.ledger, fp) {
            Err(machine_ended(s1, MachineStatus::Failed, None, Some("mutative replay refused: "@ + q.tool_name@)))
        } else {
            let s2 = MachineModel { tool_calls: s.tool_calls + 1, ledger: ledger_touched(s.ledger, id, fp, mutative), ..s1 };
            if policy.rollback_before_confirm {
                Err(machine_ended(s2, MachineStatus::Cancelled, None, Some("executor aborted"@)))
            } else if s.calls >= responses.len()
                || !gate_answer(g.catalog, g.policy, g.executor, q, false, responses[s.calls as int]) {
                Err(machine_stray(s2))
            } else {
                let s3 = MachineModel { calls: s.calls + 1,
                    invocations: if gate_reaches(g.catalog, g.policy, q, false) {
                        invocations_after(s.invocations) } else { s.invocations },
                    ..s2 };
                match responses[s.calls as int] {
                    ToolResponse::Result(res) => Ok(model_set(MachineModel {
                        results: s3.results.insert(id, res.content),
                        ledger: ledger_confirmed(s3.ledger, id),
                        cursor: s.cursor + 1,
                        ..s3
                    }, id, ExecutorStepState::Done)),
                    ToolResponse::Error(e) => {
                        let s4 = model_set(s3, id, ExecutorStepState::Failed);
                        if e.severity == ToolErrorSeverity::Fatal {
                            Err(machine_ended(s4, MachineStatus::Failed, None, Some("invalid plan: "@ + e.message@)))
                        } else {
                            let s5 = MachineModel { recoverable_errors: s.recoverable_errors + 1, ..s4 };
                            let used: u32 = match mget(s.retries, id) { Some(u) => u, None => 0 };
                            if used < policy.max_retries_per_step {
                                Ok(model_set(MachineModel {
                                    retries: s5.retries.insert(id, (used + 1) as u32),
                                    retry_count: s.retry_count + 1,
                                    steps_executed: if s.steps_executed > 0 { (s.steps_executed - 1) as nat } else { 0 },
                                    ..s5
                                }, id, ExecutorStepState::Pending))
                            } else if s.revisions >= revisions.len()
                                || !planner.revises(task, header_of(s5.plan), s5.steps, id, responses[s.calls as int],
                                    revisions[s.revisions as int]) {
                                Err(machine_stray(s5))
                            } else {
                                let s6 = MachineModel { revisions: s.revisions + 1, ..s5 };
                                match revisions[s.revisions as int] {
                                    Ok(Some(p2)) => if plan_valid(p2) {
                                        Ok(MachineModel {
                                            plan: p2,
                                            steps: p2.steps@,
                                            states: model_synced(s6.states, p2.steps@),
                                            replans: s.replans + 1,
                                            cursor: s.cursor + 1,
                                            ..s6
                                        })
                                    } else {
                                        Err(machine_ended(s6, MachineStatus::Failed, None, None))
                                    },
                                    _ => Err(machine_ended(s6, MachineStatus::Failed, None,
                                        Some("invalid plan: "@ + "recoverable failure had no valid replan"@))),
                                }
                            }
                        }
                    },
                }
            }
        }
    }
}

/// The outcome of an executor run from the model `s` under `policy`, the
/// tool calls answering with `responses` in turn and the planner revising
/// with `revisions` in turn.
pub open spec fn machine_run<P: Planner>(
    planner: P,
    task: PlannerTask,
    g: Gate,
    reg: Seq<RegistryEntry>,
    policy: ExecutorPolicy,
    s: MachineModel,
    responses: Seq<ToolResponse>,
    revisions: Seq<Result<Option<Plan>, PlannerError>>,
) -> MachineEnd
    decreases MAX_PLAN_TOOL_CALLS - s.tool_calls, MAX_PLAN_STEPS + 1 - s.cursor,
{
    if s.cursor > MAX_PLAN_STEPS || s.tool_calls > MAX_PLAN_TOOL_CALLS {
        machine_ended(s, MachineStatus::Failed, None, None)
    } else if policy.abort_after_steps matches Some(limit) && s.steps_executed >= limit {
        machine_ended(s, MachineStatus::Cancelled, None, Some("executor aborted"@))
    } else if s.cursor >= s.steps.len() {
        machine_ended(s, MachineStatus::Failed, None, Some("executor ended without final answer"@))
    } else {
        let id = s.steps[s.cursor as int].id@;
        let state = match mget(s.states, id) { Some(st) => st, None => ExecutorStepState::Pending };
        if state.spec_terminal() {
            machine_run(planner, task, g, reg, policy, MachineModel { cursor: s.cursor + 1, ..s }, responses, revisions)
        } else if s.steps_executed >= s.plan.budget.max_steps {
            machine_ended(s, MachineStatus::Failed, None, Some("executor budget exceeded: "@ + "step budget"@))
        } else if !model_deps_done(s, id) {
            machine_ended(s, MachineStatus::Failed, None, None)
        } else {
            let s1 = model_set(MachineModel { steps_executed: s.steps_executed + 1, ..s }, id, ExecutorStepState::Running);
            match s.steps[s.cursor as int].action {
                PlanAction::Tool(q) => match tool_step_outcome(planner, task, g, reg, policy, s1, id, q, responses, revisions) {
                    Ok(s2) => if s2.tool_calls > s.tool_calls && s2.tool_calls <= MAX_PLAN_TOOL_CALLS {
                        machine_run(planner, task, g, reg, policy, s2, responses, revisions)
                    } else {
                        machine_ended(s2, MachineStatus::Failed, None, None)
                    },
                    Err(end) => end,
                },
                PlanAction::FinishFromStep(src) => match mget(s1.results, src@) {
                    Some(answer) => machine_ended(model_set(s1, id, ExecutorStepState::Done), MachineStatus::Succeeded, Some(answer), None),
                    None => machine_ended(s1, MachineStatus::Failed, None, Some("executor ended without final answer"@)),
                },
                PlanAction::FinishLiteral(v) => machine_ended(model_set(s1, id, ExecutorStepState::Done),
                    MachineStatus::Succeeded, Some(v), None),
            }
        }
    }
}

/// The outcome of an executor run of `plan`: refused where the plan is
/// invalid, otherwise `machine_run` from the start.
pub open spec fn machine_outcome<P: Planner>(
    planner: P,
    task: PlannerTask,
    g: Gate,
    reg: Seq<RegistryEntry>,
    policy: ExecutorPolicy,
    plan: Plan,
    invocations: nat,
    responses: Seq<ToolResponse>,
    revisions: Seq<Result<Option<Plan>, PlannerError>>,
) -> MachineEnd {
    if !plan_valid(plan) {
        machine_ended(machine_start(plan, invocations), MachineStatus::Failed, None, None)
    } else {
        machine_run(planner, task, g, reg, policy, machine_start(plan, invocations), responses, revisions)
    }
}

/// The report says how the run ended, on the calls and revisions it really
/// got, and the executor has been invoked as the run says.
pub open spec fn machine_reported(r: ExecutorReport, e: MachineEnd, invocations: nat) -> bool {
    report_of_machine(r, e) && !e.stray && invocations == e.invocations
}

/// The report says how the run ended.
pub open spec fn report_of_machine(r: ExecutorReport, e: MachineEnd) -> bool {
    &&& r.success == e.success
    &&& r.status == e.status
    &&& r.answer == e.answer
    &&& r.plan_revision == e.revision
    &&& r.steps_executed == e.steps_executed
    &&& r.tool_calls == e.tool_calls
    &&& r.retries == e.retries
    &&& r.recoverable_errors == e.recoverable_errors
    &&& r.replans == e.replans
    &&& r.declared_timeout_ms == e.declared
    &&& (e.error matches Some(m) ==> (r.error matches Some(x) && x@ == m))
}

/// A step id that occurs in the ledger has a first entry.
proof fn lemma_first_view(l: Seq<LedgerView>, id: Seq<char>, j: int)
    requires
        0 <= j < l.len(),
        l[j].0 == id,
    ensures
        exists|k: int| 0 <= k < l.len() && l[k].0 == id && forall|i: int| 0 <= i < k ==> l[i].0 != id,
    decreases j,
{
    if exists|i: int| 0 <= i < j && l[i].0 == id {
        let i = choose|i: int| 0 <= i < j && l[i].0 == id;
        lemma_first_view(l, id, i);
    }
}

/// The ledger after `ledger_touch` reads as `ledger_touched`.
proof fn lemma_ledger_touch_model(
    old_l: Seq<StepLedgerEntry>,
    new_l: Seq<StepLedgerEntry>,
    v: Seq<LedgerView>,
    id: Seq<char>,
    fp: u64,
    mutative: bool,
)
    requires
        old_l.len() == v.len(),
        forall|i: int| 0 <= i < v.len() ==> ledger_view(#[trigger] old_l[i]) == v[i],
        forall|k: int| first_ledger_at(old_l, id, k) ==> new_l == old_l.update(k, touched(old_l[k])),
        !ledger_has(old_l, id) ==> {
            &&& new_l.len() == old_l.len() + 1
            &&& new_l.drop_last() == old_l
            &&& new_l.last().step_id@ == id
            &&& new_l.last().action_fingerprint == fp
            &&& new_l.last().mutative == mutative
            &&& !new_l.last().confirmed
            &&& new_l.last().invocations == 1
        },
    ensures
        new_l.len() == ledger_touched(v, id, fp, mutative).len(),
        forall|i: int| 0 <= i < new_l.len() ==> ledger_view(#[trigger] new_l[i]) == ledger_touched(v, id, fp, mutative)[i],
{
    let t = ledger_touched(v, id, fp, mutative);
    if exists|k: int| 0 <= k < v.len() && v[k].0 == id {
        let j = choose|j: int| 0 <= j < v.len() && v[j].0 == id;
        lemma_first_view(v, id, j);
        let c = choose|k: int| 0 <= k < v.len() && v[k].0 == id && forall|j: int| 0 <= j < k ==> v[j].0 != id;
        assert(ledger_view(old_l[c]) == v[c]);
        assert forall|i: int| 0 <= i < c implies old_l[i].step_id@ != id by {
            assert(ledger_view(old_l[i]) == v[i]);
        }
        assert(first_ledger_at(old_l, id, c));
        assert forall|i: int| 0 <= i < new_l.len() implies ledger_view(#[trigger] new_l[i]) == t[i] by {
            assert(ledger_view(old_l[i]) == v[i]);
        }
    } else {
        if ledger_has(old_l, id) {
            let j = choose|j: int| 0 <= j < old_l.len() && (#[trigger] old_l[j]).step_id@ == id;
            assert(ledger_view(old_l[j]) == v[j]);
        }
        assert forall|i: int| 0 <= i < new_l.len() implies ledger_view(#[trigger] new_l[i]) == t[i] by {
            if i < old_l.len() {
                assert(new_l[i] == new_l.drop_last()[i]);
                assert(ledger_view(old_l[i]) == v[i]);
            }
        }
    }
}

/// The ledger after `ledger_confirm` reads as `ledger_confirmed`.
proof fn lemma_ledger_confirm_model(
    old_l: Seq<StepLedgerEntry>,
    new_l: Seq<StepLedgerEntry>,
    v: Seq<LedgerView>,
    id: Seq<char>,
)
    requires
        old_l.len() == v.len(),
        forall|i: int| 0 <= i < v.len() ==> ledger_view(#[trigger] old_l[i]) == v[i],
        forall|k: int| first_ledger_at(old_l, id, k) ==> new_l == old_l.update(k, confirmed_entry(old_l[k])),
        !ledger_has(old_l, id) ==> new_l == old_l,
    ensures
        new_l.len() == ledger_confirmed(v, id).len(),
        forall|i: int| 0 <= i < new_l.len() ==> ledger_view(#[trigger] new_l[i]) == ledger_confirmed(v, id)[i],
{
    let t = ledger_confirmed(v, id);
    if exists|k: int| 0 <= k < v.len() && v[k].0 == id {
        let j = choose|j: int| 0 <= j < v.len() && v[j].0 == id;
        lemma_first_view(v, id, j);
        let c = choose|k: int| 0 <= k < v.len() && v[k].0 == id && forall|j: int| 0 <= j < k ==> v[j].0 != id;
        assert(ledger_view(old_l[c]) == v[c]);
        assert forall|i: int| 0 <= i < c implies old_l[i].step_id@ != id by {
            assert(ledger_view(old_l[i]) == v[i]);
        }
        assert(first_ledger_at(old_l, id, c));
        assert forall|i: int| 0 <= i < new_l.len() implies ledger_view(#[trigger] new_l[i]) == t[i] by {
            assert(ledger_view(old_l[i]) == v[i]);
        }
    } else {
        if ledger_has(old_l, id) {
            let j = choose|j: int| 0 <= j < old_l.len() && (#[trigger] old_l[j]).step_id@ == id;
            assert(ledger_view(old_l[j]) == v[j]);
        }
        assert forall|i: int| 0 <= i < new_l.len() implies ledger_view(#[trigger] new_l[i]) == t[i] by {
            assert(ledger_view(old_l[i]) == v[i]);
        }
    }
}

/// Requests that agree field by field give the same action text.
proof fn lemma_same_request_blob(a: ToolRequest, b: ToolRequest)
    requires
        crate::planner::same_request(a, b),
    ensures
        action_blob(a) == action_blob(b),
{
}

/// A step that an abort cancels: pending or running.
pub open spec fn open_entry(state: ExecutorStepState) -> bool {
    state == ExecutorStepState::Pending || state == ExecutorStepState::Running
}

/// Some of the first `n` states is an open state of `x`.
pub open spec fn open_state(states: Seq<(String, ExecutorStepState)>, n: int, x: Seq<char>) -> bool {
    exists|j: int| 0 <= j < n && j < states.len() && (#[trigger] states[j]).0@ == x && open_entry(states[j].1)
}

/// Some of the first `n` texts in `ids` reads `x`.
pub open spec fn listed_id(ids: Seq<String>, n: int, x: Seq<char>) -> bool {
    exists|j: int| 0 <= j < n && j < ids.len() && (#[trigger] ids[j])@ == x
}

/// Some of the first `n` steps is named `x` and depends on `failed`.
pub open spec fn depends_on_step(steps: Seq<PlanStep>, n: int, x: Seq<char>, failed: Seq<char>) -> bool {
    exists|t: int| 0 <= t < n && (#[trigger] steps[t]).id@ == x
        && exists|e: int| 0 <= e < steps[t].depends_on@.len() && (#[trigger] steps[t].depends_on@[e])@ == failed
}

/// A step with this state has not started: it has no state yet or is pending.
pub open spec fn still_pending(state: Option<ExecutorStepState>) -> bool {
    state is None || state == Some(ExecutorStepState::Pending)
}

/// How many of the first `n` states are `st`.
pub open spec fn count_state(states: Seq<(String, ExecutorStepState)>, st: ExecutorStepState, n: nat) -> nat
    decreases n,
{
    if n == 0 || n > states.len() {
        0
    } else {
        count_state(states, st, (n - 1) as nat) + if states[n - 1].1 == st { 1nat } else { 0nat }
    }
}

/// Step `id` is in the plan, and every dependency of its first listing
/// is done.
pub open spec fn dependencies_done(
    steps: Seq<PlanStep>,
    states: Seq<(String, ExecutorStepState)>,
    id: Seq<char>,
) -> bool {
    exists|k: int| #[trigger] first_step_at(steps, id, k) && forall|d: int| 0 <= d < steps[k].depends_on@.len()
        ==> assoc(states, (#[trigger] steps[k].depends_on@[d])@) == Some(ExecutorStepState::Done)
}

/// `k` is the first ledger entry of the step `id`.
pub open spec fn first_ledger_at(ledger: Seq<StepLedgerEntry>, id: Seq<char>, k: int) -> bool {
    &&& 0 <= k < ledger.len()
    &&& ledger[k].step_id@ == id
    &&& forall|j: int| 0 <= j < k ==> ledger[j].step_id@ != id
}

/// The ledger holds an entry of the step `id`.
pub open spec fn ledger_has(ledger: Seq<StepLedgerEntry>, id: Seq<char>) -> bool {
    exists|j: int| 0 <= j < ledger.len() && (#[trigger] ledger[j]).step_id@ == id
}

/// A ledger entry with one more invocation counted (saturating).
pub open spec fn touched(e: StepLedgerEntry) -> StepLedgerEntry {
    StepLedgerEntry {
        invocations: if e.invocations < u32::MAX { (e.invocations + 1) as u32 } else { u32::MAX },
        ..e
    }
}

/// A ledger entry marked confirmed.
pub open spec fn confirmed_entry(e: StepLedgerEntry) -> StepLedgerEntry {
    StepLedgerEntry { confirmed: true, ..e }
}

/// The state of `k` once the first `n` steps have been given a state:
/// its own state if it had one, pending if it is one of those steps.
pub open spec fn synced_state(
    states: Seq<(String, ExecutorStepState)>,
    steps: Seq<PlanStep>,
    n: int,
    k: Seq<char>,
) -> Option<ExecutorStepState> {
    if assoc(states, k) is Some {
        assoc(states, k)
    } else if exists|j: int| 0 <= j < n && steps[j].id@ == k {
        Some(ExecutorStepState::Pending)
    } else {
        None
    }
}

/// The plan status that mirrors an executor state.
pub open spec fn mirrored_status(state: ExecutorStepState) -> PlanStepStatus {
    match state {
        ExecutorStepState::Done => PlanStepStatus::Done,
        ExecutorStepState::Failed => PlanStepStatus::Failed,
        _ => PlanStepStatus::Pending,
    }
}

struct PlanMachine {
    plan: Plan,
    states: Vec<(String, ExecutorStepState)>,
    ledger: Vec<StepLedgerEntry>,
    decisions: Vec<DecisionRecord>,
    retries: Vec<(String, u32)>,
    policy: ExecutorPolicy,
    status: MachineStatus,
    abort_requested: bool,
    steps_executed: usize,
    tool_calls: usize,
    retry_count: usize,
    recoverable_errors: usize,
    replans: usize,
    rollbacks: usize,
    declared_timeout_ms: u64,
    results: Vec<(String, String)>,
}

impl PlanMachine {
    spec fn wf(self) -> bool {
        &&& seq_law(self.decisions@)
        &&& self.tool_calls <= MAX_PLAN_TOOL_CALLS
        &&& self.retry_count <= self.tool_calls
        &&& self.retry_count <= self.recoverable_errors
        &&& self.replans <= self.recoverable_errors <= self.tool_calls
        &&& self.steps_executed <= MAX_PLAN_STEPS
        &&& (self.policy.rollback_before_confirm ==> !has_kind(self.decisions@, DecisionKind::Confirm))
    }

    /// Counters, policy and the plan's budget and length are the same.
    spec fn same_counts(self, other: PlanMachine) -> bool {
        &&& self.tool_calls == other.tool_calls
        &&& self.retry_count == other.retry_count
        &&& self.recoverable_errors == other.recoverable_errors
        &&& self.replans == other.replans
        &&& self.steps_executed == other.steps_executed
        &&& self.declared_timeout_ms == other.declared_timeout_ms
        &&& self.policy == other.policy
        &&& self.plan.budget == other.plan.budget
        &&& self.plan.steps@.len() == other.plan.steps@.len()
        &&& self.abort_requested == other.abort_requested
    }

    /// A report hands over this machine's log, counters and step tallies.
    spec fn reported_by(self, r: ExecutorReport) -> bool {
        &&& r.decisions == self.decisions
        &&& r.plan_revision == self.plan.revision
        &&& r.steps_executed == self.steps_executed
        &&& r.tool_calls == self.tool_calls
        &&& r.retries == self.retry_count
        &&& r.recoverable_errors == self.recoverable_errors
        &&& r.replans == self.replans
        &&& r.rollbacks == self.rollbacks
        &&& r.declared_timeout_ms == self.declared_timeout_ms
        &&& r.skipped == count_state(self.states@, ExecutorStepState::Skipped, self.states@.len())
        &&& r.cancelled == count_state(self.states@, ExecutorStepState::Cancelled, self.states@.len())
    }

    /// The machine is in the model's state.
    spec fn models(self, s: MachineModel) -> bool {
        &&& crate::planner::same_header(self.plan, s.plan)
        &&& self.plan.steps@ == s.steps
        &&& forall|k: Seq<char>| #[trigger] assoc(self.states@, k) == mget(s.states, k)
        &&& forall|k: Seq<char>| #[trigger] assoc(self.retries@, k) == mget(s.retries, k)
        &&& forall|k: Seq<char>| #[trigger] assoc(self.results@, k) == mget(s.results, k)
        &&& self.ledger@.len() == s.ledger.len()
        &&& forall|i: int| 0 <= i < s.ledger.len() ==> ledger_view(#[trigger] self.ledger@[i]) == s.ledger[i]
        &&& self.steps_executed == s.steps_executed
        &&& self.tool_calls == s.tool_calls
        &&& self.retry_count == s.retry_count
        &&& self.recoverable_errors == s.recoverable_errors
        &&& self.replans == s.replans
        &&& self.declared_timeout_ms == s.declared
    }

    /// The log only grew, and by no confirmation.
    spec fn log_grew(self, other: PlanMachine) -> bool {
        &&& other.decisions@.len() <= self.decisions@.len()
        &&& self.decisions@.subrange(0, other.decisions@.len() as int) == other.decisions@
        &&& forall|i: int| other.decisions@.len() <= i < self.decisions@.len() ==> (#[trigger] self.decisions@[i]).kind != DecisionKind::Confirm
    }

    fn new(plan: Plan, policy: ExecutorPolicy) -> (m: PlanMachine)
        ensures
            m.wf(),
            m.plan == plan,
            m.policy == policy,
            m.decisions@.len() == 0,
            m.tool_calls == 0,
            !m.abort_requested,
            m.models(machine_start(plan, 0)),
    {
        let mut m = PlanMachine {
            plan,
            states: Vec::new(),
            ledger: Vec::new(),
            decisions: Vec::new(),
            retries: Vec::new(),
            policy,
            status: MachineStatus::Idle,
            abort_requested: false,
            steps_executed: 0,
            tool_calls: 0,
            retry_count: 0,
            recoverable_errors: 0,
            replans: 0,
            rollbacks: 0,
            declared_timeout_ms: 0,
            results: Vec::new(),
        };
        m.sync_new_steps();
        proof {
            let st = machine_start(plan, 0);
            assert forall|k: Seq<char>| #[trigger] assoc(m.states@, k) == mget(st.states, k) by {
                lemma_assoc_absent(Seq::<(String, ExecutorStepState)>::empty(), k);
            }
            assert forall|k: Seq<char>| #[trigger] assoc(m.retries@, k) == mget(st.retries, k) by {
                lemma_assoc_absent(m.retries@, k);
            }
            assert forall|k: Seq<char>| #[trigger] assoc(m.results@, k) == mget(st.results, k) by {
                lemma_assoc_absent(m.results@, k);
            }
        }
        m
    }

    /// Appends a decision with the next sequence number.
    fn record(&mut self, step_id: &str, from: ExecutorStepState, to: ExecutorStepState, kind: DecisionKind, detail: &str)
        requires
            old(self).wf(),
            old(self).policy.rollback_before_confirm ==> kind != DecisionKind::Confirm,
        ensures
            final(self).wf(),
            final(self).same_counts(*old(self)),
            final(self).plan == old(self).plan,
            final(self).status == old(self).status,
            final(self).rollbacks == old(self).rollbacks,
            final(self).decisions@.len() == old(self).decisions@.len() + 1,
            final(self).decisions@.drop_last() == old(self).decisions@,
            final(self).decisions@.last().kind == kind,
            *final(self) == (PlanMachine { decisions: final(self).decisions, ..*old(self) }),
    {
        let n = self.decisions.len();
        let seq: u32 = if n < 4294967295usize { n as u32 } else { 4294967295u32 };
        self.decisions.push(DecisionRecord {
            seq,
            step_id: string_from(step_id),
            from,
            to,
            kind,
            detail: string_from(detail),
        });
        proof {
            let ds = self.decisions@;
            assert(ds.drop_last() =~= old(self).decisions@);
            assert forall|i: int| 0 <= i < ds.len() implies (#[trigger] ds[i]).seq as int == (if i < u32::MAX { i } else { u32::MAX as int }) by {
                if i < ds.len() - 1 {
                    assert(ds[i] == old(self).decisions@[i]);
                }
            }
            if self.policy.rollback_before_confirm {
                assert forall|i: int| 0 <= i < ds.len() implies (#[trigger] ds[i]).kind != DecisionKind::Confirm by {
                    if i < ds.len() - 1 {
                        assert(ds[i] == old(self).decisions@[i]);
                    }
                }
            }
        }
    }

    /// The state of step `id`; a step never seen is pending.
    fn state_of(&self, id: &str) -> (r: ExecutorStepState)
        ensures
            r == (match assoc(self.states@, id@) {
                Some(st) => st,
                None => ExecutorStepState::Pending,
            }),
    {
        let mut i: usize = 0;
        while i < self.states.len()
            invariant
                i <= self.states.len(),
                forall|j: int| 0 <= j < i ==> self.states@[j].0@ != id@,
            decreases self.states.len() - i,
        {
            if same_text(self.states[i].0.as_str(), id) {
                proof {
                    assert(first_key_at(self.states@, id@, i as int));
                    lemma_assoc_at(self.states@, id@, i as int);
                }
                return self.states[i].1;
            }
            i = i + 1;
        }
        proof { lemma_assoc_absent(self.states@, id@); }
        ExecutorStepState::Pending
    }

    /// Whether step `id` has a state yet.
    fn known(&self, id: &str) -> (r: Option<ExecutorStepState>)
        ensures
            r == assoc(self.states@, id@),
    {
        let mut i: usize = 0;
        while i < self.states.len()
            invariant
                i <= self.states.len(),
                forall|j: int| 0 <= j < i ==> self.states@[j].0@ != id@,
            decreases self.states.len() - i,
        {
            if same_text(self.states[i].0.as_str(), id) {
                proof {
                    assert(first_key_at(self.states@, id@, i as int));
                    lemma_assoc_at(self.states@, id@, i as int);
                }
                return Some(self.states[i].1);
            }
            i = i + 1;
        }
        proof { lemma_assoc_absent(self.states@, id@); }
        None
    }

    /// Sets the state of step `id` (keeping states in id order) and mirrors
    /// it onto the plan's step status.
    fn set_state(&mut self, id: &str, state: ExecutorStepState)
        ensures
            final(self).same_counts(*old(self)),
            final(self).decisions == old(self).decisions,
            final(self).status == old(self).status,
            final(self).rollbacks == old(self).rollbacks,
            final(self).plan.revision == old(self).plan.revision,
            final(self).plan.schema_version == old(self).plan.schema_version,
            *final(self) == (PlanMachine { states: final(self).states, plan: final(self).plan, ..*old(self) }),
            final(self).plan == (Plan { steps: final(self).plan.steps, ..old(self).plan }),
            final(self).plan.steps@ == marked(old(self).plan.steps@, id@, mirrored_status(state)),
            forall|k: Seq<char>| #[trigger] assoc(final(self).states@, k)
                == (if k == id@ { Some(state) } else { assoc(old(self).states@, k) }),
    {
        let mut p: usize = 0;
        let mut found = false;
        while p < self.states.len()
            invariant_except_break
                !found,
            invariant
                p <= self.states.len(),
                *self == *old(self),
                forall|j: int| 0 <= j < p ==> self.states@[j].0@ != id@,
            ensures
                p <= self.states.len(),
                found ==> p < self.states.len() && self.states@[p as int].0@ == id@,
            decreases self.states.len() - p,
        {
            if same_text(self.states[p].0.as_str(), id) {
                found = true;
                break;
            }
            if text_less(id, self.states[p].0.as_str()) {
                break;
            }
            p = p + 1;
        }
        let ghost before = self.states@;
        if found {
            self.states.set(p, (string_from(id), state));
            proof {
                let pair = self.states@[p as int];
                assert(first_key_at(before, pair.0@, p as int));
                assert(self.states@ =~= before.update(p as int, pair));
                assert forall|k: Seq<char>| #[trigger] assoc(self.states@, k)
                    == (if k == id@ { Some(state) } else { assoc(before, k) }) by {
                    lemma_assoc_update(before, p as int, pair, k);
                }
            }
        } else {
            self.states.insert(p, (string_from(id), state));
            proof {
                let pair = self.states@[p as int];
                assert(self.states@ =~= before.insert(p as int, pair));
                assert forall|k: Seq<char>| #[trigger] assoc(self.states@, k)
                    == (if k == id@ { Some(state) } else { assoc(before, k) }) by {
                    lemma_assoc_insert(before, p as int, pair, k);
                }
            }
        }
        let status = match state {
            ExecutorStepState::Done => PlanStepStatus::Done,
            ExecutorStepState::Failed => PlanStepStatus::Failed,
            _ => PlanStepStatus::Pending,
        };
        let ghost mid = self.states;
        let mut i: usize = 0;
        while i < self.plan.steps.len()
            invariant
                i <= self.plan.steps.len(),
                status == mirrored_status(state),
                *self == (PlanMachine { states: mid, ..*old(self) }),
                forall|k: Seq<char>| #[trigger] assoc(mid@, k)
                    == (if k == id@ { Some(state) } else { assoc(old(self).states@, k) }),
                forall|j: int| 0 <= j < i ==> self.plan.steps@[j].id@ != id@,
            decreases self.plan.steps.len() - i,
        {
            if same_text(self.plan.steps[i].id.as_str(), id) {
                let ghost steps0 = self.plan.steps@;
                let mut step = self.plan.steps.remove(i);
                step.status = status;
                self.plan.steps.insert(i, step);
                proof {
                    assert(first_step_at(steps0, id@, i as int));
                    lemma_first_step_at(steps0, id@, i as int);
                    assert(self.plan.steps@ =~= steps0.update(i as int, with_status(steps0[i as int], status)));
                }
                return;
            }
            i = i + 1;
        }
        proof {
            if exists|k: int| first_step_at(self.plan.steps@, id@, k) {
                let k = choose|k: int| first_step_at(self.plan.steps@, id@, k);
                assert(self.plan.steps@[k].id@ == id@);
            }
        }
    }

    /// Gives every step of the plan that has no state yet the pending
    /// state.
    fn sync_new_steps(&mut self)
        ensures
            final(self).same_counts(*old(self)),
            final(self).decisions == old(self).decisions,
            final(self).status == old(self).status,
            final(self).rollbacks == old(self).rollbacks,
            final(self).plan == old(self).plan,
            *final(self) == (PlanMachine { states: final(self).states, ..*old(self) }),
            forall|k: Seq<char>| #[trigger] assoc(final(self).states@, k)
                == synced_state(old(self).states@, old(self).plan.steps@, old(self).plan.steps@.len() as int, k),
    {
        let mut i: usize = 0;
        while i < self.plan.steps.len()
            invariant
                i <= self.plan.steps.len(),
                *self == (PlanMachine { states: self.states, ..*old(self) }),
                forall|k: Seq<char>| #[trigger] assoc(self.states@, k)
                    == synced_state(old(self).states@, old(self).plan.steps@, i as int, k),
            decreases self.plan.steps.len() - i,
        {
            let id = self.plan.steps[i].id.clone();
            let ghost steps = old(self).plan.steps@;
            let ghost before = self.states@;
            proof {
                assert forall|k: Seq<char>| #[trigger] synced_state(old(self).states@, steps, i + 1, k)
                    == (if k == id@ { if assoc(old(self).states@, k) is Some { assoc(old(self).states@, k) } else { Some(ExecutorStepState::Pending) } }
                        else { synced_state(old(self).states@, steps, i as int, k) }) by {
                    if k != id@ && (exists|j: int| 0 <= j < i + 1 && steps[j].id@ == k) {
                        let j = choose|j: int| 0 <= j < i + 1 && steps[j].id@ == k;
                        assert(j < i);
                    }
                    if k == id@ {
                        assert(steps[i as int].id@ == k);
                    }
                }
            }
            match self.known(id.as_str()) {
                Some(_) => {
                    proof {
                        assert forall|k: Seq<char>| #[trigger] assoc(self.states@, k)
                            == synced_state(old(self).states@, steps, i + 1, k) by {
                            if k == id@ && assoc(old(self).states@, k) is None {
                                assert(assoc(before, k) is Some);
                                if !(exists|j: int| 0 <= j < i && steps[j].id@ == k) {
                                    assert(synced_state(old(self).states@, steps, i as int, k) is None);
                                }
                            }
                        }
                    }
                },
                None => {
                    let ghost pair = (id, ExecutorStepState::Pending);
                    proof {
                        assert forall|j: int| 0 <= j < before.len() implies before[j].0@ != id@ by {
                            if before[j].0@ == id@ {
                                lemma_first_key_exists(before, id@, j);
                            }
                        }
                    }
                    let mut p: usize = 0;
                    while p < self.states.len()
                        invariant
                            p <= self.states.len(),
                        decreases self.states.len() - p,
                    {
                        if text_less(id.as_str(), self.states[p].0.as_str()) {
                            break;
                        }
                        p = p + 1;
                    }
                    self.states.insert(p, (id, ExecutorStepState::Pending));
                    proof {
                        assert(self.states@ =~= before.insert(p as int, pair));
                        assert forall|k: Seq<char>| #[trigger] assoc(self.states@, k)
                            == synced_state(old(self).states@, steps, i + 1, k) by {
                            lemma_assoc_insert(before, p as int, pair, k);
                            if k == id@ {
                                assert(synced_state(old(self).states@, steps, i as int, k) is None);
                            }
                        }
                    }
                },
            }
            i = i + 1;
        }
    }

    /// Marks every pending step that depends on `failed_id` as skipped.
    fn skip_dependents(&mut self, failed_id: &str)
        requires
            old(self).wf(),
        ensures
            final(self).wf(),
            final(self).same_counts(*old(self)),
            final(self).log_grew(*old(self)),
            final(self).status == old(self).status,
            final(self).rollbacks == old(self).rollbacks,
            final(self).plan.revision == old(self).plan.revision,
            forall|k: Seq<char>| #[trigger] assoc(final(self).states@, k) == (
                if depends_on_step(old(self).plan.steps@, old(self).plan.steps@.len() as int, k, failed_id@)
                    && still_pending(assoc(old(self).states@, k)) {
                    Some(ExecutorStepState::Skipped)
                } else {
                    assoc(old(self).states@, k)
                }),
    {
        let mut dependents: Vec<String> = Vec::new();
        let mut i: usize = 0;
        while i < self.plan.steps.len()
            invariant
                i <= self.plan.steps.len(),
                *self == *old(self),
                forall|x: Seq<char>| #[trigger] listed_id(dependents@, dependents@.len() as int, x)
                    == depends_on_step(self.plan.steps@, i as int, x, failed_id@),
            decreases self.plan.steps.len() - i,
        {
            let step = &self.plan.steps[i];
            let mut d: usize = 0;
            let mut hit = false;
            while d < step.depends_on.len()
                invariant
                    d <= step.depends_on.len(),
                    hit == exists|e: int| 0 <= e < d && (#[trigger] step.depends_on@[e])@ == failed_id@,
                decreases step.depends_on.len() - d,
            {
                if same_text(step.depends_on[d].as_str(), failed_id) {
                    hit = true;
                }
                d = d + 1;
            }
            let ghost before = dependents@;
            if hit {
                dependents.push(step.id.clone());
            }
            proof {
                let steps = self.plan.steps@;
                assert forall|x: Seq<char>| #[trigger] listed_id(dependents@, dependents@.len() as int, x)
                    == depends_on_step(steps, i + 1, x, failed_id@) by {
                    assert(listed_id(before, before.len() as int, x) == depends_on_step(steps, i as int, x, failed_id@));
                    if listed_id(dependents@, dependents@.len() as int, x) {
                        let j = choose|j: int| 0 <= j < dependents@.len() && (#[trigger] dependents@[j])@ == x;
                        if j < before.len() {
                            assert(before[j] == dependents@[j]);
                            assert(listed_id(before, before.len() as int, x));
                        } else {
                            assert(steps[i as int].id@ == x);
                        }
                    }
                    if depends_on_step(steps, i + 1, x, failed_id@) {
                        let t = choose|t: int| 0 <= t < i + 1 && (#[trigger] steps[t]).id@ == x
                            && exists|e: int| 0 <= e < steps[t].depends_on@.len() && (#[trigger] steps[t].depends_on@[e])@ == failed_id@;
                        if t < i {
                            assert(depends_on_step(steps, i as int, x, failed_id@));
                            let j = choose|j: int| 0 <= j < before.len() && (#[trigger] before[j])@ == x;
                            assert(dependents@[j] == before[j]);
                        } else {
                            assert(hit);
                            assert(dependents@[before.len() as int]@ == x);
                        }
                    }
                    if listed_id(before, before.len() as int, x) {
                        let j = choose|j: int| 0 <= j < before.len() && (#[trigger] before[j])@ == x;
                        assert(dependents@[j] == before[j]);
                    }
                }
            }
            i = i + 1;
        }
        assert(self.decisions@.subrange(0, self.decisions@.len() as int) =~= self.decisions@);
        let mut k: usize = 0;
        while k < dependents.len()
            invariant
                k <= dependents.len(),
                self.wf(),
                self.same_counts(*old(self)),
                self.log_grew(*old(self)),
                self.status == old(self).status,
                self.rollbacks == old(self).rollbacks,
                self.plan.revision == old(self).plan.revision,
                forall|x: Seq<char>| #[trigger] listed_id(dependents@, dependents@.len() as int, x)
                    == depends_on_step(old(self).plan.steps@, old(self).plan.steps@.len() as int, x, failed_id@),
                forall|x: Seq<char>| #[trigger] assoc(self.states@, x) == (
                    if listed_id(dependents@, k as int, x) && still_pending(assoc(old(self).states@, x)) {
                        Some(ExecutorStepState::Skipped)
                    } else {
                        assoc(old(self).states@, x)
                    }),
            decreases dependents.len() - k,
        {
            let id = dependents[k].as_str();
            let ghost cur = self.states@;
            proof {
                assert forall|x: Seq<char>| #[trigger] listed_id(dependents@, k + 1, x)
                    == (listed_id(dependents@, k as int, x) || x == id@) by {
                    if listed_id(dependents@, k + 1, x) && x != id@ {
                        let j = choose|j: int| 0 <= j < k + 1 && j < dependents@.len() && (#[trigger] dependents@[j])@ == x;
                        assert(j < k);
                    }
                    if x == id@ {
                        assert(dependents@[k as int]@ == x);
                    }
                }
            }
            match self.state_of(id) {
                ExecutorStepState::Pending => {
                    let ghost before = *self;
                    self.record(id, ExecutorStepState::Pending, ExecutorStepState::Skipped, DecisionKind::Skip, failed_id);
                    proof { self.lemma_log_step(before, *old(self)); }
                    self.set_state(id, ExecutorStepState::Skipped);
                },
                _ => {},
            }
            k = k + 1;
        }
        proof {
            assert forall|x: Seq<char>| #[trigger] listed_id(dependents@, dependents@.len() as int, x)
                == listed_id(dependents@, k as int, x) by {}
        }
    }

    proof fn lemma_log_step(self, before: PlanMachine, start: PlanMachine)
        requires
            before.log_grew(start),
            self.decisions@.len() == before.decisions@.len() + 1,
            self.decisions@.drop_last() == before.decisions@,
            self.decisions@.last().kind != DecisionKind::Confirm,
        ensures
            self.log_grew(start),
    {
        let n = start.decisions@.len() as int;
        assert(self.decisions@.subrange(0, n) =~= before.decisions@.subrange(0, n));
        assert forall|i: int| n <= i < self.decisions@.len() implies (#[trigger] self.decisions@[i]).kind != DecisionKind::Confirm by {
            if i < self.decisions@.len() - 1 {
                assert(self.decisions@[i] == before.decisions@[i]);
            }
        }
    }

    /// Hands the machine's log and counters over as a report.
    fn finish_report(&mut self, success: bool, answer: Option<String>, error: Option<String>) -> (r: ExecutorReport)
        ensures
            old(self).reported_by(r),
            final(self).decisions@.len() == 0,
            *final(self) == (PlanMachine { decisions: final(self).decisions, ..*old(self) }),
            r.success == success,
            r.status == old(self).status,
            r.answer == answer,
            r.error == error,
            r.decisions == old(self).decisions,
            r.tool_calls == old(self).tool_calls,
            r.retries == old(self).retry_count,
            r.recoverable_errors == old(self).recoverable_errors,
            r.replans == old(self).replans,
            r.steps_executed == old(self).steps_executed,
            r.plan_revision == old(self).plan.revision,
            final(self).policy == old(self).policy,
    {
        let mut skipped: usize = 0;
        let mut cancelled: usize = 0;
        let mut i: usize = 0;
        while i < self.states.len()
            invariant
                i <= self.states.len(),
                *self == *old(self),
                skipped == count_state(self.states@, ExecutorStepState::Skipped, i as nat),
                cancelled == count_state(self.states@, ExecutorStepState::Cancelled, i as nat),
                skipped <= i,
                cancelled <= i,
            decreases self.states.len() - i,
        {
            match self.states[i].1 {
                ExecutorStepState::Skipped => {
                    skipped = skipped + 1;
                },
                ExecutorStepState::Cancelled => {
                    cancelled = cancelled + 1;
                },
                _ => {},
            }
            i = i + 1;
        }
        let mut decisions: Vec<DecisionRecord> = Vec::new();
        std::mem::swap(&mut decisions, &mut self.decisions);
        ExecutorReport {
            success,
            status: self.status,
            answer,
            plan_revision: self.plan.revision,
            steps_executed: self.steps_executed,
            tool_calls: self.tool_calls,
            retries: self.retry_count,
            recoverable_errors: self.recoverable_errors,
            replans: self.replans,
            rollbacks: self.rollbacks,
            skipped,
            cancelled,
            declared_timeout_ms: self.declared_timeout_ms,
            decisions,
            error,
        }
    }

    fn fail(&mut self, error: ExecutorError) -> (r: ExecutorReport)
        requires
            old(self).wf(),
        ensures
            report_ok(r, old(self).policy),
            r.status == MachineStatus::Failed,
            r.tool_calls == old(self).tool_calls,
            r.decisions == old(self).decisions,
            final(self).policy == old(self).policy,
            old(self).reported_by(r),
            !r.success,
            r.answer is None,
            r.error matches Some(m) && m@ == error.spec_message(),
    {
        self.status = MachineStatus::Failed;
        let m = error.message();
        self.finish_report(false, None, Some(m))
    }

    fn succeed(&mut self, answer: String) -> (r: ExecutorReport)
        requires
            old(self).wf(),
        ensures
            report_ok(r, old(self).policy),
            r.status == MachineStatus::Succeeded,
            r.tool_calls == old(self).tool_calls,
            final(self).policy == old(self).policy,
            old(self).reported_by(r),
            r.success,
            r.answer == Some(answer),
            r.error is None,
    {
        self.status = MachineStatus::Succeeded;
        self.finish_report(true, Some(answer), None)
    }

    /// Cancels every pending step and rolls back every running one.
    fn abort_remaining(&mut self) -> (r: ExecutorReport)
        requires
            old(self).wf(),
            has_kind(old(self).decisions@, DecisionKind::Abort) || has_kind(old(self).decisions@, DecisionKind::Rollback),
        ensures
            report_ok(r, old(self).policy),
            r.status == MachineStatus::Cancelled,
            r.tool_calls == old(self).tool_calls,
            final(self).policy == old(self).policy,
            !r.success,
            r.answer is None,
            r.error matches Some(m) && m@ == ExecutorError::Aborted.spec_message(),
            r.plan_revision == old(self).plan.revision,
            r.steps_executed == old(self).steps_executed,
            r.retries == old(self).retry_count,
            r.recoverable_errors == old(self).recoverable_errors,
            r.replans == old(self).replans,
            r.declared_timeout_ms == old(self).declared_timeout_ms,
            forall|k: Seq<char>| #[trigger] assoc(final(self).states@, k) == (
                if open_state(old(self).states@, old(self).states@.len() as int, k) {
                    Some(ExecutorStepState::Cancelled)
                } else {
                    assoc(old(self).states@, k)
                }),
    {
        let mut open: Vec<(String, ExecutorStepState)> = Vec::new();
        let mut i: usize = 0;
        while i < self.states.len()
            invariant
                i <= self.states.len(),
                *self == *old(self),
                forall|x: Seq<char>| #[trigger] open_state(open@, open@.len() as int, x)
                    == open_state(self.states@, i as int, x),
                forall|j: int| 0 <= j < open@.len() ==> open_entry((#[trigger] open@[j]).1),
            decreases self.states.len() - i,
        {
            let ghost before = open@;
            match self.states[i].1 {
                ExecutorStepState::Pending | ExecutorStepState::Running => {
                    open.push((self.states[i].0.clone(), self.states[i].1));
                },
                _ => {},
            }
            proof {
                let st = self.states@;
                assert forall|x: Seq<char>| #[trigger] open_state(open@, open@.len() as int, x)
                    == open_state(st, i + 1, x) by {
                    if open_state(open@, open@.len() as int, x) {
                        let j = choose|j: int| 0 <= j < open@.len() && j < open@.len() && (#[trigger] open@[j]).0@ == x && open_entry(open@[j].1);
                        if j < before.len() {
                            assert(open@[j] == before[j]);
                            assert(open_state(before, before.len() as int, x));
                        }
                    }
                    if open_state(st, i + 1, x) {
                        let j = choose|j: int| 0 <= j < i + 1 && j < st.len() && (#[trigger] st[j]).0@ == x && open_entry(st[j].1);
                        if j < i {
                            assert(open_state(st, i as int, x));
                            assert(open_state(before, before.len() as int, x));
                            let t = choose|t: int| 0 <= t < before.len() && t < before.len() && (#[trigger] before[t]).0@ == x && open_entry(before[t].1);
                            assert(open@[t] == before[t]);
                        } else {
                            assert(open@[before.len() as int].0@ == x);
                        }
                    }
                    if open_state(before, before.len() as int, x) {
                        let t = choose|t: int| 0 <= t < before.len() && t < before.len() && (#[trigger] before[t]).0@ == x && open_entry(before[t].1);
                        assert(open@[t] == before[t]);
                    }
                }
            }
            i = i + 1;
        }
        assert(self.decisions@.subrange(0, self.decisions@.len() as int) =~= self.decisions@);
        let mut k: usize = 0;
        while k < open.len()
            invariant
                k <= open.len(),
                self.wf(),
                self.same_counts(*old(self)),
                self.log_grew(*old(self)),
                self.policy == old(self).policy,
                self.plan.revision == old(self).plan.revision,
                forall|x: Seq<char>| #[trigger] open_state(open@, open@.len() as int, x)
                    == open_state(old(self).states@, old(self).states@.len() as int, x),
                forall|j: int| 0 <= j < open@.len() ==> open_entry((#[trigger] open@[j]).1),
                forall|x: Seq<char>| #[trigger] assoc(self.states@, x) == (
                    if open_state(open@, k as int, x) { Some(ExecutorStepState::Cancelled) } else { assoc(old(self).states@, x) }),
            decreases open.len() - k,
        {
            let id = open[k].0.as_str();
            proof {
                assert forall|x: Seq<char>| #[trigger] open_state(open@, k + 1, x)
                    == (open_state(open@, k as int, x) || x == id@) by {
                    if open_state(open@, k + 1, x) && x != id@ {
                        let j = choose|j: int| 0 <= j < k + 1 && j < open@.len() && (#[trigger] open@[j]).0@ == x && open_entry(open@[j].1);
                        assert(j < k);
                    }
                    if x == id@ {
                        assert(open@[k as int].0@ == x && open_entry(open@[k as int].1));
                    }
                }
            }
            let ghost before = *self;
            match self.state_of(id) {
                ExecutorStepState::Running => {
                    if self.rollbacks < usize::MAX {
                        self.rollbacks = self.rollbacks + 1;
                    }
                    let ghost mid = *self;
                    self.record(id, ExecutorStepState::Running, ExecutorStepState::Cancelled, DecisionKind::Rollback, "abort");
                    proof { self.lemma_log_step(mid, *old(self)); }
                },
                from => {
                    self.record(id, from, ExecutorStepState::Cancelled, DecisionKind::Abort, "abort");
                    proof { self.lemma_log_step(before, *old(self)); }
                },
            }
            self.set_state(id, ExecutorStepState::Cancelled);
            k = k + 1;
        }
        proof {
            let n = old(self).decisions@.len() as int;
            if has_kind(old(self).decisions@, DecisionKind::Abort) {
                let j = choose|j: int| 0 <= j < n && (#[trigger] old(self).decisions@[j]).kind == DecisionKind::Abort;
                assert(self.decisions@.subrange(0, n)[j] == self.decisions@[j]);
            } else {
                let j = choose|j: int| 0 <= j < n && (#[trigger] old(self).decisions@[j]).kind == DecisionKind::Rollback;
                assert(self.decisions@.subrange(0, n)[j] == self.decisions@[j]);
            }
        }
        proof {
            assert forall|x: Seq<char>| #[trigger] open_state(open@, open@.len() as int, x)
                == open_state(open@, k as int, x) by {}
        }
        self.status = MachineStatus::Cancelled;
        let m = ExecutorError::Aborted.message();
        self.finish_report(false, None, Some(m))
    }
}


// ---------------------------------------------------------------------------
// Action fingerprints
// ---------------------------------------------------------------------------

/// `Debug` escaping of one character of a string value.
pub open spec fn debug_char(c: char) -> Seq<char> {
    if c == '\\' {
        seq!['\\', '\\']
    } else if c == '"' {
        seq!['\\', '"']
    } else if c == '\n' {
        seq!['\\', 'n']
    } else if c == '\r' {
        seq!['\\', 'r']
    } else if c == '\t' {
        seq!['\\', 't']
    } else if c == '\0' {
        seq!['\\', '0']
    } else {
        seq![c]
    }
}

pub open spec fn debug_text(s: Seq<char>) -> Seq<char>
    decreases s.len(),
{
    if s.len() == 0 {
        Seq::empty()
    } else {
        debug_text(s.drop_last()) + debug_char(s.last())
    }
}

/// The `Debug` form of a tool value.
pub open spec fn value_debug(v: ToolValue) -> Seq<char> {
    match v {
        ToolValue::String(s) => "String(\""@ + debug_text(s@) + "\")"@,
        ToolValue::Integer(n) => "Integer("@ + dec_signed(n as int) + ")"@,
        ToolValue::Boolean(b) => "Boolean("@ + crate::protocol_text::bool_word(b) + ")"@,
    }
}

pub open spec fn args_blob(args: Seq<crate::tool_protocol::ToolArgument>, n: nat) -> Seq<char>
    decreases n,
{
    if n == 0 || n > args.len() {
        Seq::empty()
    } else {
        args_blob(args, (n - 1) as nat) + "|"@ + args[n - 1].name@ + "="@ + value_debug(args[n - 1].value)
    }
}

/// What identifies an action: tool, version and every argument.
pub open spec fn action_blob(r: ToolRequest) -> Seq<char> {
    r.tool_name@ + "@"@ + dec(r.tool_version as nat) + args_blob(r.arguments@, r.arguments@.len())
}

fn push_debug_text(out: &mut String, s: &str)
    ensures
        final(out)@ == old(out)@ + debug_text(s@),
{
    let cs = chars_of(s);
    let ghost before = out@;
    let mut i: usize = 0;
    while i < cs.len()
        invariant
            cs@ == s@,
            i <= cs.len(),
            out@ == before + debug_text(cs@.subrange(0, i as int)),
        decreases cs.len() - i,
    {
        let c = cs[i];
        assert(cs@.subrange(0, i + 1).drop_last() =~= cs@.subrange(0, i as int));
        if c == '\\' {
            push_char(out, '\\');
            push_char(out, '\\');
        } else if c == '"' {
            push_char(out, '\\');
            push_char(out, '"');
        } else if c == '\n' {
            push_char(out, '\\');
            push_char(out, 'n');
        } else if c == '\r' {
            push_char(out, '\\');
            push_char(out, 'r');
        } else if c == '\t' {
            push_char(out, '\\');
            push_char(out, 't');
        } else if c == '\0' {
            push_char(out, '\\');
            push_char(out, '0');
        } else {
            push_char(out, c);
        }
        i = i + 1;
        assert(out@ =~= before + debug_text(cs@.subrange(0, i as int)));
    }
    assert(cs@.subrange(0, cs.len() as int) =~= s@);
}

fn push_value_debug(out: &mut String, v: &ToolValue)
    ensures
        final(out)@ == old(out)@ + value_debug(*v),
{
    let ghost before = out@;
    match v {
        ToolValue::String(s) => {
            push_str(out, "String(\"");
            push_debug_text(out, s.as_str());
            push_str(out, "\")");
        },
        ToolValue::Integer(n) => {
            push_str(out, "Integer(");
            push_i64(out, *n);
            push_str(out, ")");
        },
        ToolValue::Boolean(b) => {
            push_str(out, "Boolean(");
            push_str(out, crate::protocol_text::bool_text(*b));
            push_str(out, ")");
        },
    }
    assert(out@ =~= before + value_debug(*v));
}

/// FNV-1a of the action blob of a request.
pub fn action_fingerprint(request: &ToolRequest) -> (r: u64)
    ensures
        r == text_fingerprint(action_blob(*request)),
{
    let mut blob = join2(request.tool_name.as_str(), "@");
    push_u64(&mut blob, request.tool_version as u64);
    let ghost head = blob@;
    let mut i: usize = 0;
    while i < request.arguments.len()
        invariant
            i <= request.arguments.len(),
            blob@ == head + args_blob(request.arguments@, i as nat),
        decreases request.arguments.len() - i,
    {
        let a = &request.arguments[i];
        push_str(&mut blob, "|");
        push_str(&mut blob, a.name.as_str());
        push_str(&mut blob, "=");
        push_value_debug(&mut blob, &a.value);
        i = i + 1;
        assert(blob@ =~= head + args_blob(request.arguments@, i as nat));
    }
    assert(blob@ =~= action_blob(*request));
    fingerprint_text(blob.as_str())
}

// ---------------------------------------------------------------------------
// Ledger, retries and the run
// ---------------------------------------------------------------------------

impl PlanMachine {
    fn ledger_index(&self, step_id: &str) -> (r: Option<usize>)
        ensures
            r matches Some(i) ==> first_ledger_at(self.ledger@, step_id@, i as int),
            r is None <==> !ledger_has(self.ledger@, step_id@),
    {
        let mut i: usize = 0;
        while i < self.ledger.len()
            invariant
                i <= self.ledger.len(),
                forall|j: int| 0 <= j < i ==> self.ledger@[j].step_id@ != step_id@,
            decreases self.ledger.len() - i,
        {
            if same_text(self.ledger[i].step_id.as_str(), step_id) {
                return Some(i);
            }
            i = i + 1;
        }
        None
    }

    /// A confirmed mutative action with this fingerprint is in the ledger.
    fn replay_blocked(&self, fingerprint: u64) -> (r: bool)
        ensures
            r == exists|i: int| 0 <= i < self.ledger@.len() && (#[trigger] self.ledger@[i]).confirmed
                && self.ledger@[i].mutative && self.ledger@[i].action_fingerprint == fingerprint,
    {
        let mut i: usize = 0;
        while i < self.ledger.len()
            invariant
                i <= self.ledger.len(),
                forall|j: int| 0 <= j < i ==> !((#[trigger] self.ledger@[j]).confirmed
                    && self.ledger@[j].mutative && self.ledger@[j].action_fingerprint == fingerprint),
            decreases self.ledger.len() - i,
        {
            let e = &self.ledger[i];
            if e.confirmed && e.mutative && e.action_fingerprint == fingerprint {
                return true;
            }
            i = i + 1;
        }
        false
    }

    /// Counts one more invocation of `step_id`, creating its ledger entry.
    fn ledger_touch(&mut self, step_id: &str, fingerprint: u64, mutative: bool)
        ensures
            final(self).same_counts(*old(self)),
            final(self).decisions == old(self).decisions,
            final(self).status == old(self).status,
            final(self).rollbacks == old(self).rollbacks,
            final(self).plan == old(self).plan,
            *final(self) == (PlanMachine { ledger: final(self).ledger, ..*old(self) }),
            forall|k: int| first_ledger_at(old(self).ledger@, step_id@, k)
                ==> final(self).ledger@ == old(self).ledger@.update(k, touched(old(self).ledger@[k])),
            !ledger_has(old(self).ledger@, step_id@) ==> {
                &&& final(self).ledger@.len() == old(self).ledger@.len() + 1
                &&& final(self).ledger@.drop_last() == old(self).ledger@
                &&& final(self).ledger@.last().step_id@ == step_id@
                &&& final(self).ledger@.last().action_fingerprint == fingerprint
                &&& final(self).ledger@.last().mutative == mutative
                &&& !final(self).ledger@.last().confirmed
                &&& final(self).ledger@.last().invocations == 1
            },
    {
        let i = match self.ledger_index(step_id) {
            Some(i) => i,
            None => {
                self.ledger.push(StepLedgerEntry {
                    step_id: string_from(step_id),
                    action_fingerprint: fingerprint,
                    mutative,
                    confirmed: false,
                    invocations: 0,
                });
                self.ledger.len() - 1
            },
        };
        let ghost before = self.ledger@;
        let old_entry = self.ledger.remove(i);
        let invocations = if old_entry.invocations < u32::MAX { old_entry.invocations + 1 } else { u32::MAX };
        self.ledger.insert(i, StepLedgerEntry { invocations, ..old_entry });
        proof {
            assert(self.ledger@ =~= before.update(i as int, touched(before[i as int])));
            if ledger_has(old(self).ledger@, step_id@) {
                assert forall|k: int| first_ledger_at(old(self).ledger@, step_id@, k) implies k == i by {
                    if k < i {
                        assert(old(self).ledger@[k].step_id@ != step_id@);
                    } else if k > i {
                        assert(old(self).ledger@[i as int].step_id@ != step_id@);
                    }
                }
            } else {
                assert(self.ledger@.drop_last() =~= old(self).ledger@);
            }
        }
    }

    fn ledger_confirm(&mut self, step_id: &str)
        ensures
            final(self).same_counts(*old(self)),
            final(self).decisions == old(self).decisions,
            final(self).status == old(self).status,
            final(self).rollbacks == old(self).rollbacks,
            final(self).plan == old(self).plan,
            *final(self) == (PlanMachine { ledger: final(self).ledger, ..*old(self) }),
            forall|k: int| first_ledger_at(old(self).ledger@, step_id@, k)
                ==> final(self).ledger@ == old(self).ledger@.update(k, confirmed_entry(old(self).ledger@[k])),
            !ledger_has(old(self).ledger@, step_id@) ==> final(self).ledger == old(self).ledger,
    {
        match self.ledger_index(step_id) {
            Some(i) => {
                let ghost before = self.ledger@;
                let old_entry = self.ledger.remove(i);
                self.ledger.insert(i, StepLedgerEntry { confirmed: true, ..old_entry });
                proof {
                    assert(self.ledger@ =~= before.update(i as int, confirmed_entry(before[i as int])));
                    assert forall|k: int| first_ledger_at(old(self).ledger@, step_id@, k) implies k == i by {
                        if k < i {
                            assert(old(self).ledger@[k].step_id@ != step_id@);
                        } else if k > i {
                            assert(old(self).ledger@[i as int].step_id@ != step_id@);
                        }
                    }
                }
            },
            None => {},
        }
    }

    fn retries_used(&self, step_id: &str) -> (r: u32)
        ensures
            r == (match assoc(self.retries@, step_id@) {
                Some(u) => u,
                None => 0,
            }),
    {
        let mut i: usize = 0;
        while i < self.retries.len()
            invariant
                i <= self.retries.len(),
                forall|j: int| 0 <= j < i ==> self.retries@[j].0@ != step_id@,
            decreases self.retries.len() - i,
        {
            if same_text(self.retries[i].0.as_str(), step_id) {
                proof {
                    assert(first_key_at(self.retries@, step_id@, i as int));
                    lemma_assoc_at(self.retries@, step_id@, i as int);
                }
                return self.retries[i].1;
            }
            i = i + 1;
        }
        proof { lemma_assoc_absent(self.retries@, step_id@); }
        0
    }

    fn set_retries(&mut self, step_id: &str, used: u32)
        ensures
            final(self).same_counts(*old(self)),
            final(self).decisions == old(self).decisions,
            final(self).status == old(self).status,
            final(self).rollbacks == old(self).rollbacks,
            final(self).plan == old(self).plan,
            *final(self) == (PlanMachine { retries: final(self).retries, ..*old(self) }),
            forall|k: Seq<char>| #[trigger] assoc(final(self).retries@, k)
                == (if k == step_id@ { Some(used) } else { assoc(old(self).retries@, k) }),
    {
        let mut i: usize = 0;
        while i < self.retries.len()
            invariant
                i <= self.retries.len(),
                *self == *old(self),
                forall|j: int| 0 <= j < i ==> self.retries@[j].0@ != step_id@,
            decreases self.retries.len() - i,
        {
            if same_text(self.retries[i].0.as_str(), step_id) {
                let ghost before = self.retries@;
                self.retries.set(i, (string_from(step_id), used));
                proof {
                    let pair = self.retries@[i as int];
                    assert(first_key_at(before, pair.0@, i as int));
                    assert(self.retries@ =~= before.update(i as int, pair));
                    assert forall|k: Seq<char>| #[trigger] assoc(self.retries@, k)
                        == (if k == step_id@ { Some(used) } else { assoc(before, k) }) by {
                        lemma_assoc_update(before, i as int, pair, k);
                    }
                }
                return;
            }
            i = i + 1;
        }
        let ghost before = self.retries@;
        self.retries.push((string_from(step_id), used));
        proof {
            let n = before.len() as int;
            let pair = self.retries@[n];
            assert(self.retries@ =~= before.insert(n, pair));
            assert forall|k: Seq<char>| #[trigger] assoc(self.retries@, k)
                == (if k == step_id@ { Some(used) } else { assoc(before, k) }) by {
                lemma_assoc_insert(before, n, pair, k);
            }
        }
    }

    fn policy_marks_mutative(&self, tool_name: &str) -> (r: bool)
        ensures
            r == exists|i: int| 0 <= i < self.policy.mutative_tools@.len()
                && (#[trigger] self.policy.mutative_tools@[i])@ == tool_name@,
    {
        let mut i: usize = 0;
        while i < self.policy.mutative_tools.len()
            invariant
                i <= self.policy.mutative_tools.len(),
                forall|j: int| 0 <= j < i ==> (#[trigger] self.policy.mutative_tools@[j])@ != tool_name@,
            decreases self.policy.mutative_tools.len() - i,
        {
            if same_text(self.policy.mutative_tools[i].as_str(), tool_name) {
                return true;
            }
            i = i + 1;
        }
        false
    }

    /// Checks that every dependency of `step_id` is done; an incomplete one
    /// fails the step.
    fn validate_dependencies(&mut self, step_id: &str) -> (r: Result<(), ExecutorError>)
        requires
            old(self).wf(),
        ensures
            final(self).wf(),
            final(self).same_counts(*old(self)),
            final(self).log_grew(*old(self)),
            final(self).status == old(self).status,
            final(self).rollbacks == old(self).rollbacks,
            final(self).plan.revision == old(self).plan.revision,
            r is Ok <==> dependencies_done(old(self).plan.steps@, old(self).states@, step_id@),
            r is Ok ==> *final(self) == *old(self),
            !(exists|k: int| first_step_at(old(self).plan.steps@, step_id@, k)) ==> (r matches Err(e) && e is InvalidPlan
                && *final(self) == *old(self)),
    {
        let mut k: usize = 0;
        let mut found = false;
        while k < self.plan.steps.len()
            invariant_except_break
                !found,
            invariant
                k <= self.plan.steps.len(),
                *self == *old(self),
                forall|j: int| 0 <= j < k ==> self.plan.steps@[j].id@ != step_id@,
            ensures
                found ==> k < self.plan.steps.len() && first_step_at(self.plan.steps@, step_id@, k as int),
                !found ==> forall|j: int| 0 <= j < self.plan.steps@.len() ==> self.plan.steps@[j].id@ != step_id@,
            decreases self.plan.steps.len() - k,
        {
            if same_text(self.plan.steps[k].id.as_str(), step_id) {
                found = true;
                break;
            }
            k = k + 1;
        }
        assert(self.decisions@.subrange(0, self.decisions@.len() as int) =~= self.decisions@);
        if !found {
            proof {
                if exists|c: int| first_step_at(self.plan.steps@, step_id@, c) {
                    let c = choose|c: int| first_step_at(self.plan.steps@, step_id@, c);
                    assert(self.plan.steps@[c].id@ == step_id@);
                }
            }
            return Err(ExecutorError::InvalidPlan(join2("missing ", step_id)));
        }
        let deps = self.plan.steps[k].depends_on.clone();
        proof {
            assert(deps@ =~= self.plan.steps@[k as int].depends_on@);
            assert forall|c: int| #[trigger] first_step_at(self.plan.steps@, step_id@, c) implies c == k by {
                if c < k {
                    assert(self.plan.steps@[c].id@ != step_id@);
                } else if c > k {
                    assert(self.plan.steps@[k as int].id@ != step_id@);
                }
            }
        }
        let mut d: usize = 0;
        while d < deps.len()
            invariant
                d <= deps.len(),
                *self == *old(self),
                first_step_at(old(self).plan.steps@, step_id@, k as int),
                forall|c: int| #[trigger] first_step_at(old(self).plan.steps@, step_id@, c) ==> c == k,
                deps@ == old(self).plan.steps@[k as int].depends_on@,
                forall|j: int| 0 <= j < d ==> assoc(old(self).states@, (#[trigger] deps@[j])@) == Some(ExecutorStepState::Done),
                old(self).wf(),
                self.wf(),
                self.same_counts(*old(self)),
                self.log_grew(*old(self)),
                self.status == old(self).status,
                self.rollbacks == old(self).rollbacks,
                self.plan.revision == old(self).plan.revision,
            decreases deps.len() - d,
        {
            let dep = deps[d].as_str();
            let known = self.known(dep);
            proof {
                if !(known matches Some(ExecutorStepState::Done)) {
                    assert(assoc(old(self).states@, deps@[d as int]@) != Some(ExecutorStepState::Done));
                    assert(!dependencies_done(old(self).plan.steps@, old(self).states@, step_id@));
                }
            }
            match known {
                Some(ExecutorStepState::Done) => {},
                Some(state) => {
                    let detail = join3_str(dep, ":", state.as_str());
                    let ghost before = *self;
                    self.record(step_id, ExecutorStepState::Pending, ExecutorStepState::Failed, DecisionKind::RejectDependency, detail.as_str());
                    proof { self.lemma_log_step(before, *old(self)); }
                    self.set_state(step_id, ExecutorStepState::Failed);
                    let mut m = string_from(step_id);
                    push_str(&mut m, " depends on incomplete ");
                    push_str(&mut m, dep);
                    return Err(ExecutorError::Dependency(m));
                },
                None => {
                    return Err(ExecutorError::Dependency(join2("missing ", dep)));
                },
            }
            d = d + 1;
        }
        proof {
            assert(dependencies_done(old(self).plan.steps@, old(self).states@, step_id@)) by {
                assert(first_step_at(old(self).plan.steps@, step_id@, k as int));
            }
        }
        Ok(())
    }

    /// Runs one tool step. `None` means the run goes on: the step is done,
    /// pending again for a retry, or replaced by a revision. The ghost
    /// results are the tool responses and planner revisions used so far.
    #[verifier::rlimit(100)]
    #[verifier::spinoff_prover]
    fn run_tool<P: Planner>(
        &mut self,
        task: &PlannerTask,
        planner: &P,
        registry: &ToolRegistry,
        runtime: &mut AuthorizedToolRuntime,
        executor: &mut ReferenceToolExecutor,
        step_id: &str,
        request: ToolRequest,
        cursor: &mut usize,
        Ghost(s): Ghost<MachineModel>,
        Ghost(got_r): Ghost<Seq<ToolResponse>>,
        Ghost(got_v): Ghost<Seq<Result<Option<Plan>, PlannerError>>>,
        Ghost(g): Ghost<Gate>,
    ) -> (out: (Option<ExecutorReport>, Ghost<Seq<ToolResponse>>, Ghost<Seq<Result<Option<Plan>, PlannerError>>>))
        requires
            old(runtime).spec_catalog() == g.catalog,
            old(runtime).spec_policy() == g.policy,
            old(executor).spec_invocations() == s.invocations,
            forall|name: Seq<char>, version: u32| #[trigger] old(executor).kind_of(name, version) == g.executor.kind_of(name, version),
            old(self).wf(),
            budget_valid(old(self).plan.budget),
            old(self).plan.steps@.len() <= MAX_PLAN_STEPS,
            *old(cursor) < old(self).plan.steps@.len(),
            !old(self).abort_requested,
            old(self).models(s),
            s.cursor == *old(cursor),
            s.calls == got_r.len(),
            s.revisions == got_v.len(),
        ensures
            final(runtime).spec_catalog() == old(runtime).spec_catalog(),
            final(runtime).spec_policy() == old(runtime).spec_policy(),
            final(self).policy == old(self).policy,
            extends(out.1@, got_r),
            extends(out.2@, got_v),
            forall|rs: Seq<ToolResponse>, vs: Seq<Result<Option<Plan>, PlannerError>>|
                extends(rs, out.1@) && extends(vs, out.2@) ==>
                match #[trigger] tool_step_outcome(*planner, *task, g, registry.entries(), old(self).policy, s, step_id@, request, rs, vs) {
                    Ok(s2) => out.0 is None && final(self).models(s2) && s2.cursor == *final(cursor)
                        && s2.calls == out.1@.len() && s2.revisions == out.2@.len()
                        && final(executor).spec_invocations() == s2.invocations,
                    Err(end) => out.0 matches Some(rep) && machine_reported(rep, end, final(executor).spec_invocations()),
                },
            forall|name: Seq<char>, version: u32| #[trigger] final(executor).kind_of(name, version) == g.executor.kind_of(name, version),
            out.0 is None ==> {
                &&& final(self).wf()
                &&& budget_valid(final(self).plan.budget)
                &&& final(self).plan.steps@.len() <= MAX_PLAN_STEPS
                &&& final(self).tool_calls == old(self).tool_calls + 1
                &&& (*final(cursor) == *old(cursor) || *final(cursor) == *old(cursor) + 1)
                &&& !final(self).abort_requested
                &&& final(runtime).spec_audit().len() == old(runtime).spec_audit().len() + 1
            },
            out.0 matches Some(rep) ==> {
                &&& report_ok(rep, old(self).policy)
                &&& old(self).tool_calls <= rep.tool_calls
                &&& final(runtime).spec_audit().len() <= old(runtime).spec_audit().len() + rep.tool_calls - old(self).tool_calls
                &&& (!old(self).policy.rollback_before_confirm ==>
                    final(runtime).spec_audit().len() == old(runtime).spec_audit().len() + rep.tool_calls - old(self).tool_calls)
            },
    {
        let ghost reg = registry.entries();
        let ghost policy = self.policy;
        let ghost id = step_id@;
        let ghost q = request;
        proof {
            lemma_extends_self(got_r);
            lemma_extends_self(got_v);
        }
        if self.tool_calls >= self.plan.budget.max_tool_calls {
            self.record(step_id, ExecutorStepState::Running, ExecutorStepState::Failed, DecisionKind::RejectBudget, "tool-call budget");
            self.set_state(step_id, ExecutorStepState::Failed);
            self.skip_dependents(step_id);
            let rep = self.fail(ExecutorError::Budget(string_from("tool-call budget")));
            return (Some(rep), Ghost(got_r), Ghost(got_v));
        }
        let (timeout, definition_mutative) = match registry.resolve(request.tool_name.as_str(), request.tool_version) {
            Some(definition) => (definition.timeout_ms, definition.mutative),
            None => {
                self.record(step_id, ExecutorStepState::Running, ExecutorStepState::Failed, DecisionKind::Fail, "unknown planned tool");
                self.set_state(step_id, ExecutorStepState::Failed);
                self.skip_dependents(step_id);
                let rep = self.fail(ExecutorError::InvalidPlan(string_from("unknown planned tool")));
                return (Some(rep), Ghost(got_r), Ghost(got_v));
            },
        };
        self.declared_timeout_ms = self.declared_timeout_ms.saturating_add(timeout);
        if self.declared_timeout_ms > self.plan.budget.max_timeout_ms {
            self.record(step_id, ExecutorStepState::Running, ExecutorStepState::Failed, DecisionKind::RejectBudget, "timeout budget");
            self.set_state(step_id, ExecutorStepState::Failed);
            self.skip_dependents(step_id);
            let rep = self.fail(ExecutorError::Budget(string_from("timeout budget")));
            return (Some(rep), Ghost(got_r), Ghost(got_v));
        }
        let mutative = definition_mutative || self.policy_marks_mutative(request.tool_name.as_str());
        let fingerprint = action_fingerprint(&request);
        let blocked = self.replay_blocked(fingerprint);
        proof {
            assert(blocked == ledger_blocks(s.ledger, fingerprint)) by {
                if blocked {
                    let i = choose|i: int| 0 <= i < self.ledger@.len() && (#[trigger] self.ledger@[i]).confirmed
                        && self.ledger@[i].mutative && self.ledger@[i].action_fingerprint == fingerprint;
                    assert(ledger_view(self.ledger@[i]) == s.ledger[i]);
                }
                if ledger_blocks(s.ledger, fingerprint) {
                    let i = choose|i: int| 0 <= i < s.ledger.len() && (#[trigger] s.ledger[i]).3 && s.ledger[i].2 && s.ledger[i].1 == fingerprint;
                    assert(ledger_view(self.ledger@[i]) == s.ledger[i]);
                }
            }
        }
        if mutative && !self.policy.allow_mutative_replay && blocked {
            self.record(step_id, ExecutorStepState::Running, ExecutorStepState::Failed, DecisionKind::RejectMutationReplay, request.tool_name.as_str());
            self.set_state(step_id, ExecutorStepState::Failed);
            self.skip_dependents(step_id);
            let rep = self.fail(ExecutorError::MutationReplay(request.tool_name.clone()));
            return (Some(rep), Ghost(got_r), Ghost(got_v));
        }
        let ghost s1 = MachineModel { declared: self.declared_timeout_ms, ..s };
        let ghost s2 = MachineModel { tool_calls: s.tool_calls + 1, ledger: ledger_touched(s.ledger, id, fingerprint, mutative), ..s1 };
        self.tool_calls = self.tool_calls + 1;
        self.record(step_id, ExecutorStepState::Running, ExecutorStepState::Running, DecisionKind::InvokeTool, request.tool_name.as_str());
        let ghost before_touch = self.ledger@;
        self.ledger_touch(step_id, fingerprint, mutative);
        proof {
            lemma_ledger_touch_model(before_touch, self.ledger@, s.ledger, id, fingerprint, mutative);
            assert(self.models(s2));
        }
        if self.policy.rollback_before_confirm {
            if self.rollbacks < usize::MAX {
                self.rollbacks = self.rollbacks + 1;
            }
            self.record(step_id, ExecutorStepState::Running, ExecutorStepState::Cancelled, DecisionKind::Rollback, "unconfirmed");
            self.set_state(step_id, ExecutorStepState::Cancelled);
            self.abort_requested = true;
            let rep = self.abort_remaining();
            return (Some(rep), Ghost(got_r), Ghost(got_v));
        }
        let ghost ex_before = *executor;
        let response = runtime.invoke_reference(&request, false, executor);
        proof {
            lemma_gate_answer_same(g.catalog, g.policy, ex_before, g.executor, request, request, response);
        }
        let ghost gr = got_r.push(response);
        let ghost s3 = MachineModel { calls: s.calls + 1, invocations: executor.spec_invocations(), ..s2 };
        proof {
            lemma_extends_self(gr);
            assert forall|rs: Seq<ToolResponse>| extends(rs, gr) implies extends(rs, got_r) && rs[got_r.len() as int] == response by {
                assert(rs.subrange(0, got_r.len() as int) =~= gr.subrange(0, got_r.len() as int));
                assert(gr.subrange(0, got_r.len() as int) =~= got_r);
                assert(rs[got_r.len() as int] == rs.subrange(0, gr.len() as int)[got_r.len() as int]);
            }
        }
        match response {
            ToolResponse::Result(result) => {
                let ghost content = result.content;
                record_result_for(&mut self.results, step_id, &result.content);
                let ghost before_confirm = self.ledger@;
                self.ledger_confirm(step_id);
                proof { lemma_ledger_confirm_model(before_confirm, self.ledger@, s2.ledger, id); }
                self.record(step_id, ExecutorStepState::Running, ExecutorStepState::Done, DecisionKind::Confirm, result.content.as_str());
                self.set_state(step_id, ExecutorStepState::Done);
                *cursor = *cursor + 1;
                proof {
                    let s4 = model_set(MachineModel {
                        results: s3.results.insert(id, content),
                        ledger: ledger_confirmed(s3.ledger, id),
                        cursor: s.cursor + 1,
                        ..s3
                    }, id, ExecutorStepState::Done);
                    assert(self.models(s4));
                }
                (None, Ghost(gr), Ghost(got_v))
            },
            ToolResponse::Error(error) => {
                self.record(step_id, ExecutorStepState::Running, ExecutorStepState::Failed, DecisionKind::Fail, error.code.as_str());
                self.set_state(step_id, ExecutorStepState::Failed);
                let ghost s4 = model_set(s3, id, ExecutorStepState::Failed);
                match error.severity {
                    ToolErrorSeverity::Recoverable => {
                        self.recoverable_errors = self.recoverable_errors + 1;
                        let ghost s5 = MachineModel { recoverable_errors: s.recoverable_errors + 1, ..s4 };
                        let used = self.retries_used(step_id);
                        if used < self.policy.max_retries_per_step {
                            self.set_retries(step_id, used + 1);
                            self.retry_count = self.retry_count + 1;
                            self.record(step_id, ExecutorStepState::Failed, ExecutorStepState::Pending, DecisionKind::Retry, error.code.as_str());
                            self.set_state(step_id, ExecutorStepState::Pending);
                            self.steps_executed = self.steps_executed.saturating_sub(1);
                            proof {
                                let s6 = model_set(MachineModel {
                                    retries: s5.retries.insert(id, (used + 1) as u32),
                                    retry_count: s.retry_count + 1,
                                    steps_executed: if s.steps_executed > 0 { (s.steps_executed - 1) as nat } else { 0 },
                                    ..s5
                                }, id, ExecutorStepState::Pending);
                                assert(self.models(s6));
                            }
                            return (None, Ghost(gr), Ghost(got_v));
                        }
                        let failed = ToolResponse::Error(error);
                        let revision = planner.replan(task, &self.plan, step_id, &failed);
                        let ghost gv = got_v.push(revision);
                        let ghost s6 = MachineModel { revisions: s.revisions + 1, ..s5 };
                        proof {
                            lemma_extends_self(gv);
                            assert forall|vs: Seq<Result<Option<Plan>, PlannerError>>| extends(vs, gv) implies extends(vs, got_v) && vs[got_v.len() as int] == revision by {
                                assert(vs.subrange(0, got_v.len() as int) =~= gv.subrange(0, got_v.len() as int));
                                assert(gv.subrange(0, got_v.len() as int) =~= got_v);
                                assert(vs[got_v.len() as int] == vs.subrange(0, gv.len() as int)[got_v.len() as int]);
                            }
                        }
                        match revision {
                            Ok(Some(revised)) => {
                                match revised.validate() {
                                    Ok(()) => {},
                                    Err(err) => {
                                        let rep = self.fail(ExecutorError::InvalidPlan(err.message()));
                                        return (Some(rep), Ghost(gr), Ghost(gv));
                                    },
                                }
                                self.plan = revised;
                                self.replans = self.replans + 1;
                                self.sync_new_steps();
                                let mut detail = string_from("revision=");
                                push_u64(&mut detail, self.plan.revision as u64);
                                self.record(step_id, ExecutorStepState::Failed, ExecutorStepState::Failed, DecisionKind::Replan, detail.as_str());
                                *cursor = *cursor + 1;
                                proof {
                                    let s7 = MachineModel {
                                        plan: revised,
                                        steps: revised.steps@,
                                        states: model_synced(s6.states, revised.steps@),
                                        replans: s.replans + 1,
                                        cursor: s.cursor + 1,
                                        ..s6
                                    };
                                    assert forall|k: Seq<char>| #[trigger] assoc(self.states@, k) == mget(s7.states, k) by {}
                                    assert(self.models(s7));
                                }
                                (None, Ghost(gr), Ghost(gv))
                            },
                            _ => {
                                self.skip_dependents(step_id);
                                let rep = self.fail(ExecutorError::InvalidPlan(PlannerError::NoReplan.message()));
                                (Some(rep), Ghost(gr), Ghost(gv))
                            },
                        }
                    },
                    ToolErrorSeverity::Fatal => {
                        self.skip_dependents(step_id);
                        let rep = self.fail(ExecutorError::InvalidPlan(error.message));
                        (Some(rep), Ghost(gr), Ghost(got_v))
                    },
                }
            },
        }
    }

    #[verifier::rlimit(100)]
    #[verifier::spinoff_prover]
    fn run<P: Planner>(
        &mut self,
        task: &PlannerTask,
        planner: &P,
        registry: &ToolRegistry,
        runtime: &mut AuthorizedToolRuntime,
        executor: &mut ReferenceToolExecutor,
    ) -> (r: ExecutorReport)
        requires
            old(self).wf(),
            old(self).tool_calls == 0,
            old(self).decisions@.len() == 0,
            !old(self).abort_requested,
            old(self).models(machine_start(old(self).plan, 0)),
        ensures
            exists|responses: Seq<ToolResponse>, revisions: Seq<Result<Option<Plan>, PlannerError>>|
                machine_reported(r, #[trigger] machine_outcome(*planner, *task,
                    Gate { catalog: old(runtime).spec_catalog(), policy: old(runtime).spec_policy(), executor: *old(executor) },
                    registry.entries(), old(self).policy, old(self).plan, old(executor).spec_invocations(), responses, revisions),
                    final(executor).spec_invocations()),
            report_ok(r, old(self).policy),
            final(runtime).spec_catalog() == old(runtime).spec_catalog(),
            final(runtime).spec_policy() == old(runtime).spec_policy(),
            final(runtime).spec_audit().len() <= old(runtime).spec_audit().len() + r.tool_calls,
            !old(self).policy.rollback_before_confirm ==> final(runtime).spec_audit().len() == old(runtime).spec_audit().len() + r.tool_calls,
            !plan_valid(old(self).plan) ==> {
                &&& r.status == MachineStatus::Failed
                &&& r.tool_calls == 0
                &&& r.decisions@.len() == 0
                &&& *final(runtime) == *old(runtime)
                &&& *final(executor) == *old(executor)
            },
    {
        let ghost g = Gate { catalog: runtime.spec_catalog(), policy: runtime.spec_policy(), executor: *executor };
        let ghost reg = registry.entries();
        let ghost policy = self.policy;
        let ghost st0 = machine_start(self.plan, executor.spec_invocations());
        match self.plan.validate() {
            Ok(()) => {},
            Err(error) => {
                let r = self.fail(ExecutorError::InvalidPlan(error.message()));
                assert(machine_reported(r, machine_outcome(*planner, *task, g, reg, policy, old(self).plan, g.executor.spec_invocations(),
                    Seq::empty(), Seq::empty()), executor.spec_invocations()));
                return r;
            },
        }
        self.status = MachineStatus::Running;
        let mut cursor: usize = 0;
        let ghost mut st = st0;
        let ghost mut got_r: Seq<ToolResponse> = Seq::empty();
        let ghost mut got_v: Seq<Result<Option<Plan>, PlannerError>> = Seq::empty();
        loop
            invariant
                self.wf(),
                budget_valid(self.plan.budget),
                self.plan.steps@.len() <= MAX_PLAN_STEPS,
                cursor <= MAX_PLAN_STEPS,
                !self.abort_requested,
                self.policy == old(self).policy,
                policy == old(self).policy,
                reg == registry.entries(),
                st0 == machine_start(old(self).plan, g.executor.spec_invocations()),
                g.catalog == old(runtime).spec_catalog(),
                g.policy == old(runtime).spec_policy(),
                g.executor == *old(executor),
                executor.spec_invocations() == st.invocations,
                forall|name: Seq<char>, version: u32| #[trigger] executor.kind_of(name, version) == g.executor.kind_of(name, version),
                runtime.spec_catalog() == old(runtime).spec_catalog(),
                runtime.spec_policy() == old(runtime).spec_policy(),
                runtime.spec_audit().len() == old(runtime).spec_audit().len() + self.tool_calls,
                plan_valid(old(self).plan),
                self.models(st),
                st.cursor == cursor,
                st.calls == got_r.len(),
                st.revisions == got_v.len(),
                forall|rs: Seq<ToolResponse>, vs: Seq<Result<Option<Plan>, PlannerError>>|
                    extends(rs, got_r) && extends(vs, got_v) ==>
                    #[trigger] machine_run(*planner, *task, g, reg, policy, st0, rs, vs) == machine_run(*planner, *task, g, reg, policy, st, rs, vs),
            decreases MAX_PLAN_TOOL_CALLS - self.tool_calls, MAX_PLAN_STEPS + 1 - cursor,
        {
            proof {
                lemma_extends_self(got_r);
                lemma_extends_self(got_v);
                assert(machine_run(*planner, *task, g, reg, policy, st0, got_r, got_v) == machine_run(*planner, *task, g, reg, policy, st, got_r, got_v));
            }
            if self.abort_requested {
                return self.abort_remaining();
            }
            match self.policy.abort_after_steps {
                Some(limit) => {
                    if self.steps_executed >= limit {
                        self.abort_requested = true;
                        self.record("machine", ExecutorStepState::Running, ExecutorStepState::Cancelled, DecisionKind::Abort, "abort-after-steps");
                        let r = self.abort_remaining();
                        assert(machine_reported(r, machine_outcome(*planner, *task, g, reg, policy, old(self).plan, g.executor.spec_invocations(), got_r, got_v), executor.spec_invocations()));
                        return r;
                    }
                },
                None => {},
            }
            if cursor >= self.plan.steps.len() {
                let r = self.fail(ExecutorError::NoAnswer);
                assert(machine_reported(r, machine_outcome(*planner, *task, g, reg, policy, old(self).plan, g.executor.spec_invocations(), got_r, got_v), executor.spec_invocations()));
                return r;
            }
            let step_id = self.plan.steps[cursor].id.clone();
            let ghost id = step_id@;
            let state = self.state_of(step_id.as_str());
            if state.is_terminal() {
                proof {
                    let st1 = MachineModel { cursor: st.cursor + 1, ..st };
                    assert forall|rs: Seq<ToolResponse>, vs: Seq<Result<Option<Plan>, PlannerError>>|
                        extends(rs, got_r) && extends(vs, got_v) implies
                        #[trigger] machine_run(*planner, *task, g, reg, policy, st0, rs, vs) == machine_run(*planner, *task, g, reg, policy, st1, rs, vs) by {
                        assert(machine_run(*planner, *task, g, reg, policy, st0, rs, vs) == machine_run(*planner, *task, g, reg, policy, st, rs, vs));
                    }
                    st = st1;
                }
                cursor = cursor + 1;
                continue;
            }
            if self.steps_executed >= self.plan.budget.max_steps {
                self.record(step_id.as_str(), state, ExecutorStepState::Failed, DecisionKind::RejectBudget, "step budget");
                let r = self.fail(ExecutorError::Budget(string_from("step budget")));
                assert(machine_reported(r, machine_outcome(*planner, *task, g, reg, policy, old(self).plan, g.executor.spec_invocations(), got_r, got_v), executor.spec_invocations()));
                return r;
            }
            let ghost before_deps = *self;
            match self.validate_dependencies(step_id.as_str()) {
                Ok(()) => {
                    proof { lemma_deps_done_model(before_deps, st, id); }
                },
                Err(error) => {
                    proof { lemma_deps_done_model(before_deps, st, id); }
                    self.skip_dependents(step_id.as_str());
                    let r = self.fail(error);
                    assert(machine_reported(r, machine_outcome(*planner, *task, g, reg, policy, old(self).plan, g.executor.spec_invocations(), got_r, got_v), executor.spec_invocations()));
                    return r;
                },
            }
            self.record(step_id.as_str(), state, ExecutorStepState::Running, DecisionKind::Admit, "dependencies-ok");
            self.set_state(step_id.as_str(), ExecutorStepState::Running);
            self.steps_executed = self.steps_executed + 1;
            let ghost s1 = model_set(MachineModel { steps_executed: st.steps_executed + 1, ..st }, id, ExecutorStepState::Running);
            assert(self.models(s1));
            let action = crate::planner::copy_action(&self.plan.steps[cursor].action);
            let ghost original = st.steps[cursor as int].action;
            match action {
                PlanAction::Tool(request) => {
                    let ghost q = request;
                    let (outcome, gr, gv) = self.run_tool(task, planner, registry, runtime, executor, step_id.as_str(), request, &mut cursor,
                        Ghost(s1), Ghost(got_r), Ghost(got_v), Ghost(g));
                    proof {
                        lemma_extends_self(gr@);
                        lemma_extends_self(gv@);
                        match original {
                            PlanAction::Tool(q0) => {
                                lemma_same_request_blob(q, q0);
                                assert forall|rs: Seq<ToolResponse>, vs: Seq<Result<Option<Plan>, PlannerError>>|
                                    extends(rs, gr@) && extends(vs, gv@) implies
                                    tool_step_outcome(*planner, *task, g, reg, policy, s1, id, q, rs, vs) == tool_step_outcome(*planner, *task, g, reg, policy, s1, id, q0, rs, vs)
                                    && extends(rs, got_r) && extends(vs, got_v) by {
                                    assert(rs.subrange(0, got_r.len() as int) =~= gr@.subrange(0, got_r.len() as int));
                                    assert(vs.subrange(0, got_v.len() as int) =~= gv@.subrange(0, got_v.len() as int));
                                }
                            },
                            _ => {},
                        }
                    }
                    match outcome {
                        Some(report) => {
                            proof {
                                assert(machine_run(*planner, *task, g, reg, policy, st0, gr@, gv@) == machine_run(*planner, *task, g, reg, policy, st, gr@, gv@));
                            }
                            assert(machine_reported(report, machine_outcome(*planner, *task, g, reg, policy, old(self).plan, g.executor.spec_invocations(), gr@, gv@), executor.spec_invocations()));
                            return report;
                        },
                        None => {
                            proof {
                                let s2 = tool_step_outcome(*planner, *task, g, reg, policy, s1, id, q, gr@, gv@)->Ok_0;
                                assert forall|rs: Seq<ToolResponse>, vs: Seq<Result<Option<Plan>, PlannerError>>|
                                    extends(rs, gr@) && extends(vs, gv@) implies
                                    #[trigger] machine_run(*planner, *task, g, reg, policy, st0, rs, vs) == machine_run(*planner, *task, g, reg, policy, s2, rs, vs) by {
                                    assert(machine_run(*planner, *task, g, reg, policy, st0, rs, vs) == machine_run(*planner, *task, g, reg, policy, st, rs, vs));
                                }
                                st = s2;
                                got_r = gr@;
                                got_v = gv@;
                            }
                        },
                    }
                },
                PlanAction::FinishFromStep(source) => {
                    match crate::planner::result_of(&self.results, source.as_str()) {
                        None => {
                            self.record(step_id.as_str(), ExecutorStepState::Running, ExecutorStepState::Failed, DecisionKind::Fail, "missing finish source");
                            self.set_state(step_id.as_str(), ExecutorStepState::Failed);
                            let r = self.fail(ExecutorError::NoAnswer);
                            assert(machine_reported(r, machine_outcome(*planner, *task, g, reg, policy, old(self).plan, g.executor.spec_invocations(), got_r, got_v), executor.spec_invocations()));
                            return r;
                        },
                        Some(answer) => {
                            self.record(step_id.as_str(), ExecutorStepState::Running, ExecutorStepState::Done, DecisionKind::Finish, answer.as_str());
                            self.set_state(step_id.as_str(), ExecutorStepState::Done);
                            let r = self.succeed(answer);
                            assert(machine_reported(r, machine_outcome(*planner, *task, g, reg, policy, old(self).plan, g.executor.spec_invocations(), got_r, got_v), executor.spec_invocations()));
                            return r;
                        },
                    }
                },
                PlanAction::FinishLiteral(value) => {
                    self.record(step_id.as_str(), ExecutorStepState::Running, ExecutorStepState::Done, DecisionKind::Finish, value.as_str());
                    self.set_state(step_id.as_str(), ExecutorStepState::Done);
                    let r = self.succeed(value);
                    assert(machine_reported(r, machine_outcome(*planner, *task, g, reg, policy, old(self).plan, g.executor.spec_invocations(), got_r, got_v), executor.spec_invocations()));
                    return r;
                },
            }
        }
    }
}

/// Whether the dependencies of step `id` are done reads alike on the
/// machine and on its model.
proof fn lemma_deps_done_model(m: PlanMachine, s: MachineModel, id: Seq<char>)
    requires
        m.models(s),
    ensures
        dependencies_done(m.plan.steps@, m.states@, id) == model_deps_done(s, id),
{
    if dependencies_done(m.plan.steps@, m.states@, id) {
        let k = choose|k: int| #[trigger] first_step_at(m.plan.steps@, id, k) && forall|d: int| 0 <= d < m.plan.steps@[k].depends_on@.len()
            ==> assoc(m.states@, (#[trigger] m.plan.steps@[k].depends_on@[d])@) == Some(ExecutorStepState::Done);
        assert(first_step_at(s.steps, id, k));
        assert forall|d: int| 0 <= d < s.steps[k].depends_on@.len()
            implies mget(s.states, (#[trigger] s.steps[k].depends_on@[d])@) == Some(ExecutorStepState::Done) by {
            assert(assoc(m.states@, m.plan.steps@[k].depends_on@[d]@) == Some(ExecutorStepState::Done));
        }
    }
    if model_deps_done(s, id) {
        let k = choose|k: int| #[trigger] first_step_at(s.steps, id, k) && forall|d: int| 0 <= d < s.steps[k].depends_on@.len()
            ==> mget(s.states, (#[trigger] s.steps[k].depends_on@[d])@) == Some(ExecutorStepState::Done);
        assert(first_step_at(m.plan.steps@, id, k));
        assert forall|d: int| 0 <= d < m.plan.steps@[k].depends_on@.len()
            implies assoc(m.states@, (#[trigger] m.plan.steps@[k].depends_on@[d])@) == Some(ExecutorStepState::Done) by {
            assert(mget(s.states, s.steps[k].depends_on@[d]@) == Some(ExecutorStepState::Done));
        }
    }
}

fn join3_str(a: &str, b: &str, c: &str) -> (r: String)
    ensures
        r@ == a@ + b@ + c@,
{
    crate::text::join3(a, b, c)
}

fn record_result_for(results: &mut Vec<(String, String)>, key: &str, value: &String)
    ensures
        forall|k: Seq<char>| #[trigger] assoc(final(results)@, k) == (if k == key@ { Some(*value) } else { assoc(old(results)@, k) }),
{
    crate::planner::record_result(results, string_from(key), value.clone());
}

/// Replaying a plan through the executor reproduces its report: runs of
/// the same plan under the same policy and registry, whose tool calls
/// answer alike and whose planner revises alike, agree on success, status,
/// answer, revision and counters, and on the error where its text is fixed.
pub proof fn lemma_execute_plan_replays<P: Planner>(
    planner: P,
    task: PlannerTask,
    g: Gate,
    plan: Plan,
    policy: ExecutorPolicy,
    invocations: nat,
    reg: Seq<RegistryEntry>,
    responses: Seq<ToolResponse>,
    revisions: Seq<Result<Option<Plan>, PlannerError>>,
    r1: ExecutorReport,
    r2: ExecutorReport,
)
    requires
        report_of_machine(r1, machine_outcome(planner, task, g, reg, policy, plan, invocations, responses, revisions)),
        report_of_machine(r2, machine_outcome(planner, task, g, reg, policy, plan, invocations, responses, revisions)),
    ensures
        r1.success == r2.success,
        r1.status == r2.status,
        r1.answer == r2.answer,
        r1.plan_revision == r2.plan_revision,
        r1.steps_executed == r2.steps_executed,
        r1.tool_calls == r2.tool_calls,
        r1.retries == r2.retries,
        r1.recoverable_errors == r2.recoverable_errors,
        r1.replans == r2.replans,
        machine_outcome(planner, task, g, reg, policy, plan, invocations, responses, revisions).error is Some
            ==> (r1.error matches Some(a) && r2.error matches Some(b) && a@ == b@),
{
}

/// Runs a plan through the executor state machine under a policy. The
/// report is the outcome of `machine_outcome` for the responses the tool
/// calls gave and the revisions the planner gave, in turn.
pub fn execute_plan<P: Planner>(
    task: &PlannerTask,
    planner: &P,
    plan: Plan,
    registry: &ToolRegistry,
    runtime: &mut AuthorizedToolRuntime,
    executor: &mut ReferenceToolExecutor,
    policy: ExecutorPolicy,
) -> (r: ExecutorReport)
    ensures
        exists|responses: Seq<ToolResponse>, revisions: Seq<Result<Option<Plan>, PlannerError>>|
            machine_reported(r, #[trigger] machine_outcome(*planner, *task,
                Gate { catalog: old(runtime).spec_catalog(), policy: old(runtime).spec_policy(), executor: *old(executor) },
                registry.entries(), policy, plan, old(executor).spec_invocations(), responses, revisions),
                final(executor).spec_invocations()),
        report_ok(r, policy),
        final(runtime).spec_catalog() == old(runtime).spec_catalog(),
        final(runtime).spec_policy() == old(runtime).spec_policy(),
        final(runtime).spec_audit().len() <= old(runtime).spec_audit().len() + r.tool_calls,
        !policy.rollback_before_confirm ==> final(runtime).spec_audit().len() == old(runtime).spec_audit().len() + r.tool_calls,
        !plan_valid(plan) ==> {
            &&& r.status == MachineStatus::Failed
            &&& r.tool_calls == 0
            &&& r.decisions@.len() == 0
            &&& *final(runtime) == *old(runtime)
            &&& *final(executor) == *old(executor)
        },
{
    let mut machine = PlanMachine::new(plan, policy);
    machine.run(task, planner, registry, runtime, executor)
}

} // verus!
