//! Explicit deterministic planner and a minimal plan runner.
//!
//! Planning never executes tools. The runner only consumes structured plan
//! steps through request validation, the permission gate and the local
//! reference tools.

use vstd::prelude::*;
use vstd::utf8::{encode_utf8, is_ascii_chars, is_ascii_chars_encode_utf8};
use crate::fingerprint::{fingerprint_text, text_fingerprint};
use crate::permissions::{gate_answer, gate_reaches, requested_definition, AuthorizedToolRuntime, PermissionPolicy};
use crate::protocol_codec::request_text;
use crate::protocol_text::field;
use crate::text::{chars_of, dec, join2, join3, push_char, push_str, push_u64, same_text, string_from};
use crate::tool_protocol::{
    envelope_valid, ident_char, valid_identifier, ToolArgument, ToolDefinition, MAX_CALL_ID_LEN, ToolErrorSeverity, ToolRequest, ToolResponse, ToolValue,
};
use crate::tool_registry::{invocations_after, has_tool, tool_timeout, RegistryEntry, ReferenceToolExecutor, ToolRegistry};

verus! {

pub const PLAN_SCHEMA_VERSION: u32 = 1;
pub const MAX_PLAN_STEPS: usize = 32;
pub const MAX_PLAN_TOOL_CALLS: usize = 24;
pub const MAX_PLAN_TIMEOUT_MS: u64 = 30000;
pub const MAX_PLAN_ID_BYTES: usize = 96;
pub const MAX_GOAL_BYTES: usize = 1024;
pub const MAX_FINISH_LITERAL_BYTES: usize = 4096;

#[derive(Clone, Copy, Debug, PartialEq, Eq)]
pub struct PlanBudget {
    pub max_steps: usize,
    pub max_tool_calls: usize,
    pub max_timeout_ms: u64,
}

impl Default for PlanBudget {
    fn default() -> (r: PlanBudget)
        ensures
            r.max_steps == 12 && r.max_tool_calls == 8 && r.max_timeout_ms == 5000,
    {
        PlanBudget { max_steps: 12, max_tool_calls: 8, max_timeout_ms: 5000 }
    }
}

pub open spec fn budget_valid(b: PlanBudget) -> bool {
    &&& 0 < b.max_steps <= MAX_PLAN_STEPS
    &&& 0 < b.max_tool_calls <= MAX_PLAN_TOOL_CALLS
    &&& 0 < b.max_timeout_ms <= MAX_PLAN_TIMEOUT_MS
}

impl PlanBudget {
    /// The budget itself where each limit is positive and within the hard
    /// maximum.
    pub fn validate(self) -> (r: Result<PlanBudget, PlannerError>)
        ensures
            r is Ok <==> budget_valid(self),
            r matches Ok(b) ==> b == self,
            r matches Err(e) ==> e is InvalidPlan,
    {
        if self.max_steps == 0 || self.max_steps > MAX_PLAN_STEPS {
            return Err(PlannerError::InvalidPlan(string_from("max_steps out of range")));
        }
        if self.max_tool_calls == 0 || self.max_tool_calls > MAX_PLAN_TOOL_CALLS {
            return Err(PlannerError::InvalidPlan(string_from("max_tool_calls out of range")));
        }
        if self.max_timeout_ms == 0 || self.max_timeout_ms > MAX_PLAN_TIMEOUT_MS {
            return Err(PlannerError::InvalidPlan(string_from("max_timeout_ms out of range")));
        }
        Ok(self)
    }
}

#[derive(Clone, Copy, Debug, PartialEq, Eq)]
pub enum PlanStepStatus {
    Pending,
    Done,
    Failed,
}

impl PlanStepStatus {
    pub open spec fn spec_name(self) -> Seq<char> {
        match self {
            PlanStepStatus::Pending => "pending"@,
            PlanStepStatus::Done => "done"@,
            PlanStepStatus::Failed => "failed"@,
        }
    }

    pub fn as_str(self) -> (r: &'static str)
        ensures
            r@ == self.spec_name(),
    {
        match self {
            PlanStepStatus::Pending => "pending",
            PlanStepStatus::Done => "done",
            PlanStepStatus::Failed => "failed",
        }
    }
}

#[derive(Clone, Debug, PartialEq, Eq)]
pub enum PlanAction {
    Tool(ToolRequest),
    FinishFromStep(String),
    FinishLiteral(String),
}

impl PlanAction {
    pub open spec fn spec_kind(self) -> Seq<char> {
        match self {
            PlanAction::Tool(_) => "tool"@,
            PlanAction::FinishFromStep(_) => "finish-from-step"@,
            PlanAction::FinishLiteral(_) => "finish-literal"@,
        }
    }

    fn kind(&self) -> (r: &'static str)
        ensures
            r@ == self.spec_kind(),
    {
        match self {
            PlanAction::Tool(_) => "tool",
            PlanAction::FinishFromStep(_) => "finish-from-step",
            PlanAction::FinishLiteral(_) => "finish-literal",
        }
    }
}

#[derive(Clone, Debug, PartialEq, Eq)]
pub struct PlanStep {
    pub id: String,
    pub depends_on: Vec<String>,
    pub completion: String,
    pub status: PlanStepStatus,
    pub action: PlanAction,
}

#[derive(Clone, Debug, PartialEq, Eq)]
pub struct Plan {
    pub schema_version: u32,
    pub plan_id: String,
    pub revision: u32,
    pub goal: String,
    pub budget: PlanBudget,
    pub steps: Vec<PlanStep>,
}

// ---------------------------------------------------------------------------
// Validity
// ---------------------------------------------------------------------------

/// Number of UTF-8 bytes of a text, as `str::len` reports it.
pub open spec fn byte_len(s: Seq<char>) -> nat {
    (encode_utf8(s).len() as usize) as nat
}

/// Unicode white space, as `char::is_whitespace` and `str::trim` see it.
pub open spec fn is_ws(c: char) -> bool {
    ||| '\t' <= c && c <= '\r'
    ||| c == ' '
    ||| c == '\u{85}'
    ||| c == '\u{a0}'
    ||| c == '\u{1680}'
    ||| '\u{2000}' <= c && c <= '\u{200a}'
    ||| c == '\u{2028}'
    ||| c == '\u{2029}'
    ||| c == '\u{202f}'
    ||| c == '\u{205f}'
    ||| c == '\u{3000}'
}

/// Nothing is left once white space is trimmed.
pub open spec fn blank(s: Seq<char>) -> bool {
    forall|i: int| 0 <= i < s.len() ==> is_ws(#[trigger] s[i])
}

pub fn is_ws_char(c: char) -> (r: bool)
    ensures
        r == is_ws(c),
{
    ('\t' <= c && c <= '\r') || c == ' ' || c == '\u{85}' || c == '\u{a0}' || c == '\u{1680}'
        || ('\u{2000}' <= c && c <= '\u{200a}') || c == '\u{2028}' || c == '\u{2029}' || c == '\u{202f}'
        || c == '\u{205f}' || c == '\u{3000}'
}

pub fn is_blank(s: &str) -> (r: bool)
    ensures
        r == blank(s@),
{
    let cs = chars_of(s);
    let mut i: usize = 0;
    while i < cs.len()
        invariant
            cs@ == s@,
            i <= cs.len(),
            forall|k: int| 0 <= k < i ==> is_ws(#[trigger] cs@[k]),
        decreases cs.len() - i,
    {
        if !is_ws_char(cs[i]) {
            return false;
        }
        i = i + 1;
    }
    true
}

/// Some of the first `n` steps has the id `id`.
pub open spec fn id_among(steps: Seq<PlanStep>, n: int, id: Seq<char>) -> bool {
    exists|k: int| 0 <= k < n && k < steps.len() && (#[trigger] steps[k]).id@ == id
}

/// The checks on step `k`: its id is new, its completion criterion is not
/// blank, and what it depends on or finishes from is itself or an earlier
/// step.
pub open spec fn step_valid(steps: Seq<PlanStep>, k: int) -> bool {
    let s = steps[k];
    &&& 0 < byte_len(s.id@) <= MAX_PLAN_ID_BYTES
    &&& !id_among(steps, k, s.id@)
    &&& !blank(s.completion@)
    &&& forall|d: int| 0 <= d < s.depends_on@.len() ==> id_among(steps, k + 1, (#[trigger] s.depends_on@[d])@)
    &&& match s.action {
        PlanAction::Tool(r) => envelope_valid(r),
        PlanAction::FinishFromStep(src) => id_among(steps, k + 1, src@),
        PlanAction::FinishLiteral(v) => byte_len(v@) <= MAX_FINISH_LITERAL_BYTES,
    }
}

/// How many of the first `n` steps call a tool.
pub open spec fn tool_step_count(steps: Seq<PlanStep>, n: nat) -> nat
    decreases n,
{
    if n == 0 || n > steps.len() {
        0
    } else {
        tool_step_count(steps, (n - 1) as nat) + if steps[n - 1].action is Tool { 1nat } else { 0nat }
    }
}

/// Everything `Plan::validate` accepts of the plan `p` with the steps `steps`.
pub open spec fn plan_valid_with(p: Plan, steps: Seq<PlanStep>) -> bool {
    &&& p.schema_version == PLAN_SCHEMA_VERSION
    &&& budget_valid(p.budget)
    &&& 0 < byte_len(p.plan_id@) <= MAX_PLAN_ID_BYTES
    &&& !blank(p.goal@)
    &&& byte_len(p.goal@) <= MAX_GOAL_BYTES
    &&& 0 < steps.len() <= p.budget.max_steps
    &&& forall|k: int| 0 <= k < steps.len() ==> #[trigger] step_valid(steps, k)
    &&& tool_step_count(steps, steps.len()) <= p.budget.max_tool_calls
}

/// Everything `Plan::validate` accepts.
pub open spec fn plan_valid(p: Plan) -> bool {
    plan_valid_with(p, p.steps@)
}

fn find_step_id(steps: &Vec<PlanStep>, n: usize, id: &str) -> (r: bool)
    requires
        n <= steps.len(),
    ensures
        r == id_among(steps@, n as int, id@),
{
    let mut k: usize = 0;
    while k < n
        invariant
            n <= steps.len(),
            k <= n,
            forall|j: int| 0 <= j < k ==> (#[trigger] steps@[j]).id@ != id@,
        decreases n - k,
    {
        if same_text(steps[k].id.as_str(), id) {
            return true;
        }
        k = k + 1;
    }
    false
}

fn check_step(steps: &Vec<PlanStep>, k: usize) -> (r: Result<(), PlannerError>)
    requires
        k < steps.len(),
    ensures
        r is Ok <==> step_valid(steps@, k as int),
        r matches Err(e) ==> e is InvalidPlan,
{
    let step = &steps[k];
    let n = step.id.as_str().len();
    if n == 0 || n > MAX_PLAN_ID_BYTES || find_step_id(steps, k, step.id.as_str()) {
        return Err(PlannerError::InvalidPlan(join2("invalid/duplicate step id ", step.id.as_str())));
    }
    if is_blank(step.completion.as_str()) {
        return Err(PlannerError::InvalidPlan(join3("step ", step.id.as_str(), " has empty completion criterion")));
    }
    let mut d: usize = 0;
    while d < step.depends_on.len()
        invariant
            k < steps.len(),
            *step == steps@[k as int],
            d <= step.depends_on.len(),
            forall|j: int| 0 <= j < d ==> id_among(steps@, k + 1, (#[trigger] step.depends_on@[j])@),
        decreases step.depends_on.len() - d,
    {
        if !find_step_id(steps, k + 1, step.depends_on[d].as_str()) {
            return Err(PlannerError::InvalidPlan(join3("step ", step.id.as_str(), " dependency must reference an earlier step")));
        }
        d = d + 1;
    }
    match &step.action {
        PlanAction::Tool(request) => match request.validate_envelope() {
            Ok(()) => Ok(()),
            Err(e) => Err(PlannerError::InvalidPlan(e.message())),
        },
        PlanAction::FinishFromStep(source) => {
            if !find_step_id(steps, k + 1, source.as_str()) {
                return Err(PlannerError::InvalidPlan(join3("finish source ", source.as_str(), " must reference an earlier step")));
            }
            Ok(())
        },
        PlanAction::FinishLiteral(value) => {
            if value.as_str().len() > MAX_FINISH_LITERAL_BYTES {
                return Err(PlannerError::InvalidPlan(string_from("finish literal exceeds limit")));
            }
            Ok(())
        },
    }
}

impl Plan {
    /// Checks schema, budget, identifiers, goal, step ids, dependencies,
    /// finish sources, envelopes of tool requests and the tool-call count.
    pub fn validate(&self) -> (r: Result<(), PlannerError>)
        ensures
            r is Ok <==> plan_valid(*self),
            r matches Err(e) ==> e is InvalidPlan,
    {
        if self.schema_version != PLAN_SCHEMA_VERSION {
            let mut m = string_from("plan schema ");
            push_u64(&mut m, self.schema_version as u64);
            push_str(&mut m, " unsupported");
            return Err(PlannerError::InvalidPlan(m));
        }
        self.budget.validate()?;
        let n = self.plan_id.as_str().len();
        if n == 0 || n > MAX_PLAN_ID_BYTES {
            return Err(PlannerError::InvalidPlan(string_from("invalid plan_id")));
        }
        if is_blank(self.goal.as_str()) || self.goal.as_str().len() > MAX_GOAL_BYTES {
            return Err(PlannerError::InvalidPlan(string_from("invalid goal")));
        }
        if self.steps.len() == 0 || self.steps.len() > self.budget.max_steps {
            return Err(PlannerError::InvalidPlan(string_from("step count exceeds plan budget")));
        }
        let mut tool_calls: usize = 0;
        let mut k: usize = 0;
        while k < self.steps.len()
            invariant
                k <= self.steps.len() <= MAX_PLAN_STEPS,
                tool_calls == tool_step_count(self.steps@, k as nat),
                tool_calls <= k,
                forall|j: int| 0 <= j < k ==> #[trigger] step_valid(self.steps@, j),
            decreases self.steps.len() - k,
        {
            check_step(&self.steps, k)?;
            match &self.steps[k].action {
                PlanAction::Tool(_) => {
                    tool_calls = tool_calls + 1;
                },
                _ => {},
            }
            k = k + 1;
        }
        if tool_calls > self.budget.max_tool_calls {
            return Err(PlannerError::InvalidPlan(string_from("tool calls exceed plan budget")));
        }
        Ok(())
    }

    /// The canonical text of a valid plan.
    pub fn canonical(&self) -> (r: Result<String, PlannerError>)
        ensures
            r is Ok <==> plan_valid(*self),
            r matches Ok(t) ==> t@ == plan_text(*self),
            r matches Err(e) ==> e is InvalidPlan,
    {
        self.validate()?;
        let mut out = String::new();
        push_num_line(&mut out, "auralis_plan", self.schema_version as u64);
        push_esc_line(&mut out, "plan_id", self.plan_id.as_str());
        push_num_line(&mut out, "revision", self.revision as u64);
        push_esc_line(&mut out, "goal", self.goal.as_str());
        push_num_line(&mut out, "max_steps", self.budget.max_steps as u64);
        push_num_line(&mut out, "max_tool_calls", self.budget.max_tool_calls as u64);
        push_num_line(&mut out, "max_timeout_ms", self.budget.max_timeout_ms);
        push_num_line(&mut out, "step_count", self.steps.len() as u64);
        let ghost head = out@;
        assert(head == plan_head(*self));
        let mut i: usize = 0;
        while i < self.steps.len()
            invariant
                i <= self.steps.len(),
                out@ == head + steps_text(self.steps@, i as nat),
            decreases self.steps.len() - i,
        {
            push_step_text(&mut out, i, &self.steps[i]);
            i = i + 1;
            assert(out@ =~= head + steps_text(self.steps@, i as nat));
        }
        Ok(out)
    }

    /// FNV-1a of the canonical text of a valid plan.
    pub fn fingerprint(&self) -> (r: Result<u64, PlannerError>)
        ensures
            r is Ok <==> plan_valid(*self),
            r matches Ok(h) ==> h == text_fingerprint(plan_text(*self)),
    {
        let text = self.canonical()?;
        Ok(fingerprint_text(text.as_str()))
    }
}

// ---------------------------------------------------------------------------
// Canonical text
// ---------------------------------------------------------------------------

/// Escaping of one character in canonical plan text.
pub open spec fn plan_esc_char(c: char) -> Seq<char> {
    if c == '\\' {
        seq!['\\', '\\']
    } else if c == '\n' {
        seq!['\\', 'n']
    } else if c == '\r' {
        seq!['\\', 'r']
    } else if c == ',' {
        seq!['\\', ',']
    } else if c == '=' {
        seq!['\\', '=']
    } else {
        seq![c]
    }
}

/// Backslash escaping of `\`, newline, carriage return, `,` and `=`.
pub open spec fn plan_esc(s: Seq<char>) -> Seq<char>
    decreases s.len(),
{
    if s.len() == 0 {
        Seq::empty()
    } else {
        plan_esc(s.drop_last()) + plan_esc_char(s.last())
    }
}

pub fn escape_plan_text(s: &str) -> (r: String)
    ensures
        r@ == plan_esc(s@),
{
    let cs = chars_of(s);
    let mut out = String::new();
    let mut i: usize = 0;
    while i < cs.len()
        invariant
            cs@ == s@,
            i <= cs.len(),
            out@ == plan_esc(cs@.subrange(0, i as int)),
        decreases cs.len() - i,
    {
        let c = cs[i];
        assert(cs@.subrange(0, i + 1).drop_last() =~= cs@.subrange(0, i as int));
        if c == '\\' {
            push_char(&mut out, '\\');
            push_char(&mut out, '\\');
        } else if c == '\n' {
            push_char(&mut out, '\\');
            push_char(&mut out, 'n');
        } else if c == '\r' {
            push_char(&mut out, '\\');
            push_char(&mut out, 'r');
        } else if c == ',' {
            push_char(&mut out, '\\');
            push_char(&mut out, ',');
        } else if c == '=' {
            push_char(&mut out, '\\');
            push_char(&mut out, '=');
        } else {
            push_char(&mut out, c);
        }
        i = i + 1;
        assert(out@ =~= plan_esc(cs@.subrange(0, i as int)));
    }
    assert(cs@.subrange(0, cs.len() as int) =~= s@);
    out
}

pub open spec fn step_key(i: nat, rest: Seq<char>) -> Seq<char> {
    "step."@ + dec(i) + "."@ + rest
}

/// Escaped dependencies joined by commas.
pub open spec fn deps_text(deps: Seq<String>, n: nat) -> Seq<char>
    decreases n,
{
    if n == 0 || n > deps.len() {
        Seq::empty()
    } else if n == 1 {
        plan_esc(deps[0]@)
    } else {
        deps_text(deps, (n - 1) as nat) + ","@ + plan_esc(deps[n - 1]@)
    }
}

pub open spec fn action_text(i: nat, a: PlanAction) -> Seq<char> {
    match a {
        PlanAction::Tool(r) => field(step_key(i, "tool_request"@), plan_esc(request_text(r))),
        PlanAction::FinishFromStep(src) => field(step_key(i, "source"@), plan_esc(src@)),
        PlanAction::FinishLiteral(v) => field(step_key(i, "value"@), plan_esc(v@)),
    }
}

pub open spec fn step_text(i: nat, s: PlanStep) -> Seq<char> {
    field(step_key(i, "id"@), plan_esc(s.id@))
        + field(step_key(i, "status"@), s.status.spec_name())
        + field(step_key(i, "depends"@), deps_text(s.depends_on@, s.depends_on@.len()))
        + field(step_key(i, "completion"@), plan_esc(s.completion@))
        + field(step_key(i, "action"@), s.action.spec_kind())
        + action_text(i, s.action)
}

pub open spec fn steps_text(steps: Seq<PlanStep>, n: nat) -> Seq<char>
    decreases n,
{
    if n == 0 || n > steps.len() {
        Seq::empty()
    } else {
        steps_text(steps, (n - 1) as nat) + step_text((n - 1) as nat, steps[n - 1])
    }
}

pub open spec fn plan_head(p: Plan) -> Seq<char> {
    plan_head_with(p, p.steps@.len())
}

/// The header lines of the plan `p` with `n` steps.
pub open spec fn plan_head_with(p: Plan, n: nat) -> Seq<char> {
    field("auralis_plan"@, dec(p.schema_version as nat))
        + field("plan_id"@, plan_esc(p.plan_id@))
        + field("revision"@, dec(p.revision as nat))
        + field("goal"@, plan_esc(p.goal@))
        + field("max_steps"@, dec(p.budget.max_steps as nat))
        + field("max_tool_calls"@, dec(p.budget.max_tool_calls as nat))
        + field("max_timeout_ms"@, dec(p.budget.max_timeout_ms as nat))
        + field("step_count"@, dec(n))
}

/// The canonical text of a plan.
pub open spec fn plan_text(p: Plan) -> Seq<char> {
    plan_text_with(p, p.steps@)
}

/// The canonical text of the plan `p` with the steps `steps`.
pub open spec fn plan_text_with(p: Plan, steps: Seq<PlanStep>) -> Seq<char> {
    plan_head_with(p, steps.len()) + steps_text(steps, steps.len())
}

fn push_num_line(out: &mut String, key: &str, n: u64)
    ensures
        final(out)@ == old(out)@ + field(key@, dec(n as nat)),
{
    let v = crate::text::u64_text(n);
    crate::protocol_text::push_field(out, key, v.as_str());
}

fn push_esc_line(out: &mut String, key: &str, value: &str)
    ensures
        final(out)@ == old(out)@ + field(key@, plan_esc(value@)),
{
    let v = escape_plan_text(value);
    crate::protocol_text::push_field(out, key, v.as_str());
}

fn step_key_string(i: usize, rest: &str) -> (r: String)
    ensures
        r@ == step_key(i as nat, rest@),
{
    let mut k = string_from("step.");
    push_u64(&mut k, i as u64);
    push_str(&mut k, ".");
    push_str(&mut k, rest);
    assert(k@ =~= step_key(i as nat, rest@));
    k
}

fn deps_string(deps: &Vec<String>) -> (r: String)
    ensures
        r@ == deps_text(deps@, deps@.len()),
{
    let mut out = String::new();
    let mut i: usize = 0;
    while i < deps.len()
        invariant
            i <= deps.len(),
            out@ == deps_text(deps@, i as nat),
        decreases deps.len() - i,
    {
        if i > 0 {
            push_str(&mut out, ",");
        }
        let e = escape_plan_text(deps[i].as_str());
        push_str(&mut out, e.as_str());
        i = i + 1;
        assert(out@ =~= deps_text(deps@, i as nat));
    }
    out
}

fn push_step_text(out: &mut String, i: usize, s: &PlanStep)
    ensures
        final(out)@ == old(out)@ + step_text(i as nat, *s),
{
    let ghost before = out@;
    push_esc_line(out, step_key_string(i, "id").as_str(), s.id.as_str());
    crate::protocol_text::push_field(out, step_key_string(i, "status").as_str(), s.status.as_str());
    let deps = deps_string(&s.depends_on);
    crate::protocol_text::push_field(out, step_key_string(i, "depends").as_str(), deps.as_str());
    push_esc_line(out, step_key_string(i, "completion").as_str(), s.completion.as_str());
    crate::protocol_text::push_field(out, step_key_string(i, "action").as_str(), s.action.kind());
    let ghost mid = out@;
    match &s.action {
        PlanAction::Tool(request) => {
            let encoded = request.encode();
            push_esc_line(out, step_key_string(i, "tool_request").as_str(), encoded.as_str());
        },
        PlanAction::FinishFromStep(source) => {
            push_esc_line(out, step_key_string(i, "source").as_str(), source.as_str());
        },
        PlanAction::FinishLiteral(value) => {
            push_esc_line(out, step_key_string(i, "value").as_str(), value.as_str());
        },
    }
    assert(out@ =~= mid + action_text(i as nat, s.action));
    assert(out@ =~= before + step_text(i as nat, *s));
}


#[derive(Clone, Debug, PartialEq, Eq)]
pub enum PlannerError {
    InvalidPlan(String),
    Budget(String),
    Dependency(String),
    Tool(String),
    NoReplan,
    NoAnswer,
}

impl PlannerError {
    pub open spec fn spec_message(self) -> Seq<char> {
        match self {
            PlannerError::InvalidPlan(v) => "invalid plan: "@ + v@,
            PlannerError::Budget(v) => "plan budget exceeded: "@ + v@,
            PlannerError::Dependency(v) => "plan dependency error: "@ + v@,
            PlannerError::Tool(v) => "plan tool error: "@ + v@,
            PlannerError::NoReplan => "recoverable failure had no valid replan"@,
            PlannerError::NoAnswer => "plan ended without final answer"@,
        }
    }

    /// Human-readable text of the error (its `Display` form).
    pub fn message(&self) -> (r: String)
        ensures
            r@ == self.spec_message(),
            r@ == (match self {
                PlannerError::InvalidPlan(v) => "invalid plan: "@ + v@,
                PlannerError::Budget(v) => "plan budget exceeded: "@ + v@,
                PlannerError::Dependency(v) => "plan dependency error: "@ + v@,
                PlannerError::Tool(v) => "plan tool error: "@ + v@,
                PlannerError::NoReplan => "recoverable failure had no valid replan"@,
                PlannerError::NoAnswer => "plan ended without final answer"@,
            }),
    {
        match self {
            PlannerError::InvalidPlan(v) => join2("invalid plan: ", v.as_str()),
            PlannerError::Budget(v) => join2("plan budget exceeded: ", v.as_str()),
            PlannerError::Dependency(v) => join2("plan dependency error: ", v.as_str()),
            PlannerError::Tool(v) => join2("plan tool error: ", v.as_str()),
            PlannerError::NoReplan => string_from("recoverable failure had no valid replan"),
            PlannerError::NoAnswer => string_from("plan ended without final answer"),
        }
    }
}


// ---------------------------------------------------------------------------
// Tasks and planners
// ---------------------------------------------------------------------------

#[derive(Clone, Debug, PartialEq, Eq)]
pub enum PlannerTask {
    Lookup { key: String },
    RecoverThenEcho { text: String },
}

pub open spec fn ascii_alnum(c: char) -> bool {
    ('a' <= c && c <= 'z') || ('A' <= c && c <= 'Z') || ('0' <= c && c <= '9')
}

pub open spec fn safe_char(c: char) -> char {
    if ascii_alnum(c) { c } else { '-' }
}

/// At most the first 40 characters, each kept where it is an ASCII letter
/// or digit and replaced by `-` otherwise.
pub open spec fn safe_id_spec(s: Seq<char>) -> Seq<char> {
    let n = if s.len() <= 40 { s.len() as int } else { 40 };
    Seq::new(n as nat, |i: int| safe_char(s[i]))
}

fn safe_id(value: &str) -> (r: String)
    ensures
        r@ == safe_id_spec(value@),
{
    let cs = chars_of(value);
    let n = if cs.len() <= 40 { cs.len() } else { 40 };
    let mut out = String::new();
    let mut i: usize = 0;
    while i < n
        invariant
            cs@ == value@,
            n <= cs.len(),
            n == (if cs.len() <= 40 { cs.len() } else { 40 }),
            i <= n,
            out@ == Seq::new(i as nat, |k: int| safe_char(cs@[k])),
        decreases n - i,
    {
        let c = cs[i];
        let keep = ('a' <= c && c <= 'z') || ('A' <= c && c <= 'Z') || ('0' <= c && c <= '9');
        push_char(&mut out, if keep { c } else { '-' });
        i = i + 1;
        assert(out@ =~= Seq::new(i as nat, |k: int| safe_char(cs@[k])));
    }
    assert(out@ =~= safe_id_spec(value@));
    out
}

impl PlannerTask {
    pub open spec fn spec_goal(self) -> Seq<char> {
        match self {
            PlannerTask::Lookup { key } => "lookup "@ + key@ + " and return the value"@,
            PlannerTask::RecoverThenEcho { text } => "recover from a controlled transient error and return "@ + text@,
        }
    }

    pub open spec fn spec_id_suffix(self) -> Seq<char> {
        match self {
            PlannerTask::Lookup { key } => "lookup-"@ + safe_id_spec(key@),
            PlannerTask::RecoverThenEcho { text } => "recover-"@ + safe_id_spec(text@),
        }
    }

    /// The goal sentence of the task.
    pub fn goal(&self) -> (r: String)
        ensures
            r@ == self.spec_goal(),
    {
        match self {
            PlannerTask::Lookup { key } => join3("lookup ", key.as_str(), " and return the value"),
            PlannerTask::RecoverThenEcho { text } => join2("recover from a controlled transient error and return ", text.as_str()),
        }
    }

    fn id_suffix(&self) -> (r: String)
        ensures
            r@ == self.spec_id_suffix(),
    {
        match self {
            PlannerTask::Lookup { key } => join2("lookup-", safe_id(key.as_str()).as_str()),
            PlannerTask::RecoverThenEcho { text } => join2("recover-", safe_id(text.as_str()).as_str()),
        }
    }
}

/// Something that turns tasks into plans and may revise a plan after a
/// recoverable failure.
pub trait Planner {
    /// `r` is a revision this planner may give for the plan with header `h`
    /// and steps `steps` after `failed_step` got `response`. A planner that
    /// says nothing of its revisions admits every answer.
    open spec fn revises(
        &self,
        task: PlannerTask,
        h: PlanHeader,
        steps: Seq<PlanStep>,
        failed_step: Seq<char>,
        response: ToolResponse,
        r: Result<Option<Plan>, PlannerError>,
    ) -> bool {
        true
    }

    fn plan(&self, task: &PlannerTask, budget: PlanBudget) -> Result<Plan, PlannerError>;

    fn replan(&self, task: &PlannerTask, plan: &Plan, failed_step: &str, response: &ToolResponse) -> (r: Result<Option<Plan>, PlannerError>)
        ensures
            self.revises(*task, header_of(*plan), plan.steps@, failed_step@, *response, r);
}

/// What a plan holds besides its steps.
pub struct PlanHeader {
    pub schema_version: u32,
    pub plan_id: Seq<char>,
    pub revision: u32,
    pub goal: Seq<char>,
    pub budget: PlanBudget,
}

pub open spec fn header_of(p: Plan) -> PlanHeader {
    PlanHeader { schema_version: p.schema_version, plan_id: p.plan_id@, revision: p.revision, goal: p.goal@, budget: p.budget }
}

#[derive(Clone, Copy, Debug)]
pub struct ReferencePlanner;

fn string_request(prefix: &str, step: &str, tool: &str, arg: &str, value: &str) -> (r: ToolRequest)
    ensures
        r.schema_version == crate::tool_protocol::TOOL_PROTOCOL_SCHEMA_VERSION,
        r.call_id@ == prefix@ + ":"@ + step@,
        r.tool_name@ == tool@,
        r.tool_version == 1,
        r.arguments@.len() == 1,
        r.arguments@[0].name@ == arg@,
        r.arguments@[0].value matches ToolValue::String(v) && v@ == value@,
{
    let call_id = join3(prefix, ":", step);
    let mut args: Vec<ToolArgument> = Vec::new();
    args.push(ToolArgument { name: string_from(arg), value: ToolValue::String(string_from(value)) });
    ToolRequest::new(call_id.as_str(), tool, 1, args)
}

fn tool_step(id: &str, depends_on: Vec<String>, completion: &str, request: ToolRequest) -> (r: PlanStep)
    ensures
        r.id@ == id@,
        r.depends_on == depends_on,
        r.completion@ == completion@,
        r.status == PlanStepStatus::Pending,
        r.action == PlanAction::Tool(request),
{
    PlanStep {
        id: string_from(id),
        depends_on,
        completion: string_from(completion),
        status: PlanStepStatus::Pending,
        action: PlanAction::Tool(request),
    }
}

fn finish_from(id: &str, depends_on: Vec<String>, completion: &str, source: &str) -> (r: PlanStep)
    ensures
        r.id@ == id@,
        r.depends_on == depends_on,
        r.completion@ == completion@,
        r.status == PlanStepStatus::Pending,
        r.action matches PlanAction::FinishFromStep(src) && src@ == source@,
{
    PlanStep {
        id: string_from(id),
        depends_on,
        completion: string_from(completion),
        status: PlanStepStatus::Pending,
        action: PlanAction::FinishFromStep(string_from(source)),
    }
}

fn one_dep(id: &str) -> (r: Vec<String>)
    ensures
        r@.len() == 1 && r@[0]@ == id@,
{
    let mut v: Vec<String> = Vec::new();
    v.push(string_from(id));
    v
}

/// The identifier of the plan that the reference planner makes for a task.
pub open spec fn reference_plan_id(task: PlannerTask) -> Seq<char> {
    "plan-"@ + task.spec_id_suffix()
}

/// The inputs on which the reference planner's plan is valid: a valid
/// budget with room for its steps and a goal within the byte limit.
pub open spec fn reference_plan_fits(task: PlannerTask, budget: PlanBudget) -> bool {
    &&& budget_valid(budget)
    &&& (task is Lookup ==> 2 <= budget.max_steps)
    &&& byte_len(task.spec_goal()) <= MAX_GOAL_BYTES
}

/// An ASCII text has as many bytes as characters.
proof fn lemma_ascii_byte_len(s: Seq<char>)
    requires
        is_ascii_chars(s),
        s.len() <= 4096,
    ensures
        byte_len(s) == s.len(),
{
    is_ascii_chars_encode_utf8(s);
}

/// A text of identifier characters of bounded length is an identifier,
/// and is ASCII.
proof fn lemma_ident_ascii(s: Seq<char>)
    requires
        forall|i: int| 0 <= i < s.len() ==> ident_char(#[trigger] s[i]),
    ensures
        is_ascii_chars(s),
{
}

/// The reference plan id and the call ids built on it are identifiers of
/// at most 60 ASCII characters.
proof fn lemma_reference_ids(task: PlannerTask, step: Seq<char>)
    requires
        step == "s1"@ || step == "s2"@,
    ensures
        forall|i: int| 0 <= i < reference_plan_id(task).len() ==> ident_char(#[trigger] reference_plan_id(task)[i]),
        0 < reference_plan_id(task).len() <= 53,
        valid_identifier(reference_plan_id(task) + ":"@ + step, 96),
{
    reveal_strlit("plan-");
    reveal_strlit("lookup-");
    reveal_strlit("recover-");
    reveal_strlit(":");
    reveal_strlit("s1");
    reveal_strlit("s2");
    let pid = reference_plan_id(task);
    let suffix = task.spec_id_suffix();
    let (head, body) = match task {
        PlannerTask::Lookup { key } => ("lookup-"@, safe_id_spec(key@)),
        PlannerTask::RecoverThenEcho { text } => ("recover-"@, safe_id_spec(text@)),
    };
    assert(suffix == head + body);
    assert forall|i: int| 0 <= i < pid.len() implies ident_char(#[trigger] pid[i]) by {
        if i >= 5 {
            assert(pid[i] == suffix[i - 5]);
            if i - 5 >= head.len() {
                assert(suffix[i - 5] == body[i - 5 - head.len()]);
            }
        }
    }
    let cid = pid + ":"@ + step;
    assert forall|i: int| 0 <= i < cid.len() implies ident_char(#[trigger] cid[i]) by {
        if i < pid.len() {
            assert(cid[i] == pid[i]);
        }
    }
}

/// The plan the reference planner builds is valid wherever the task and
/// budget fit.
proof fn lemma_reference_plan_valid(task: PlannerTask, p: Plan)
    requires
        reference_plan_fits(task, p.budget),
        p.schema_version == PLAN_SCHEMA_VERSION,
        p.plan_id@ == reference_plan_id(task),
        p.goal@ == task.spec_goal(),
        p.steps@.len() == (if task is Lookup { 2int } else { 1int }),
        p.steps@[0].id@ == "s1"@,
        p.steps@[0].depends_on@.len() == 0,
        p.steps@[0].completion@ == (if task is Lookup { "lookup returns a controlled value"@ }
            else { "controlled error is observed and triggers replan"@ }),
        p.steps@[0].action matches PlanAction::Tool(q) && q.schema_version == crate::tool_protocol::TOOL_PROTOCOL_SCHEMA_VERSION
            && q.call_id@ == reference_plan_id(task) + ":"@ + "s1"@
            && q.tool_name@ == (if task is Lookup { "lookup"@ } else { "ref.error"@ }) && q.tool_version == 1
            && q.arguments@.len() == 1 && q.arguments@[0].name@ == (if task is Lookup { "key"@ } else { "code"@ }),
        task is Lookup ==> p.steps@[1].id@ == "s2"@ && p.steps@[1].completion@ == "answer equals lookup result"@
            && p.steps@[1].depends_on@.len() == 1 && p.steps@[1].depends_on@[0]@ == "s1"@
            && (p.steps@[1].action matches PlanAction::FinishFromStep(src) && src@ == "s1"@),
    ensures
        plan_valid(p),
{
    reveal_strlit("s1");
    reveal_strlit("s2");
    reveal_strlit("lookup");
    reveal_strlit("ref.error");
    reveal_strlit("key");
    reveal_strlit("code");
    reveal_strlit("lookup ");
    reveal_strlit("recover from a controlled transient error and return ");
    reveal_strlit("lookup returns a controlled value");
    reveal_strlit("controlled error is observed and triggers replan");
    reveal_strlit("answer equals lookup result");
    let steps = p.steps@;
    lemma_reference_ids(task, "s1"@);
    lemma_ident_ascii(reference_plan_id(task));
    lemma_ascii_byte_len(reference_plan_id(task));
    assert(!is_ws(p.goal@[0]));
    assert(is_ascii_chars("s1"@));
    assert(is_ascii_chars("s2"@));
    lemma_ascii_byte_len("s1"@);
    lemma_ascii_byte_len("s2"@);
    assert(!is_ws(steps[0].completion@[0]));
    assert(step_valid(steps, 0));
    if task is Lookup {
        assert(steps[0].id@[1] != "s2"@[1]);
        assert(!is_ws(steps[1].completion@[0]));
        assert(id_among(steps, 2, "s1"@)) by {
            assert(steps[0].id@ == "s1"@);
        }
        assert(step_valid(steps, 1));
    }
    assert forall|k: int| 0 <= k < steps.len() implies #[trigger] step_valid(steps, k) by {
    }
    reveal_with_fuel(tool_step_count, 3);
}

/// Two requests agree field by field.
pub open spec fn same_request(a: ToolRequest, b: ToolRequest) -> bool {
    &&& a.schema_version == b.schema_version
    &&& a.call_id == b.call_id
    &&& a.tool_name == b.tool_name
    &&& a.tool_version == b.tool_version
    &&& a.arguments@ == b.arguments@
}

/// Two actions agree field by field.
pub open spec fn same_action(a: PlanAction, b: PlanAction) -> bool {
    match (a, b) {
        (PlanAction::Tool(x), PlanAction::Tool(y)) => same_request(x, y),
        (PlanAction::FinishFromStep(x), PlanAction::FinishFromStep(y)) => x == y,
        (PlanAction::FinishLiteral(x), PlanAction::FinishLiteral(y)) => x == y,
        _ => false,
    }
}

/// Two steps agree field by field.
pub open spec fn same_step(a: PlanStep, b: PlanStep) -> bool {
    &&& a.id == b.id
    &&& a.depends_on@ == b.depends_on@
    &&& a.completion == b.completion
    &&& a.status == b.status
    &&& same_action(a.action, b.action)
}

fn copy_value(v: &ToolValue) -> (r: ToolValue)
    ensures
        r == *v,
{
    match v {
        ToolValue::String(s) => ToolValue::String(s.clone()),
        ToolValue::Integer(n) => ToolValue::Integer(*n),
        ToolValue::Boolean(b) => ToolValue::Boolean(*b),
    }
}

fn copy_request(q: &ToolRequest) -> (r: ToolRequest)
    ensures
        same_request(r, *q),
{
    let mut arguments: Vec<ToolArgument> = Vec::new();
    let mut i: usize = 0;
    while i < q.arguments.len()
        invariant
            i <= q.arguments.len(),
            arguments@ == q.arguments@.subrange(0, i as int),
        decreases q.arguments.len() - i,
    {
        arguments.push(ToolArgument { name: q.arguments[i].name.clone(), value: copy_value(&q.arguments[i].value) });
        i = i + 1;
        assert(arguments@ =~= q.arguments@.subrange(0, i as int));
    }
    assert(arguments@ =~= q.arguments@);
    ToolRequest {
        schema_version: q.schema_version,
        call_id: q.call_id.clone(),
        tool_name: q.tool_name.clone(),
        tool_version: q.tool_version,
        arguments,
    }
}

pub(crate) fn copy_action(a: &PlanAction) -> (r: PlanAction)
    ensures
        same_action(r, *a),
{
    match a {
        PlanAction::Tool(q) => PlanAction::Tool(copy_request(q)),
        PlanAction::FinishFromStep(x) => PlanAction::FinishFromStep(x.clone()),
        PlanAction::FinishLiteral(x) => PlanAction::FinishLiteral(x.clone()),
    }
}

fn copy_step(s: &PlanStep) -> (r: PlanStep)
    ensures
        same_step(r, *s),
{
    let depends_on = s.depends_on.clone();
    assert(depends_on@ =~= s.depends_on@);
    let action = copy_action(&s.action);
    PlanStep { id: s.id.clone(), depends_on, completion: s.completion.clone(), status: s.status, action }
}

/// A recoverable error of step `s1` of a recovery task: the one case in
/// which the reference planner revises a plan.
pub open spec fn replan_case(task: PlannerTask, failed_step: Seq<char>, response: ToolResponse) -> bool {
    &&& response matches ToolResponse::Error(e) && e.severity == ToolErrorSeverity::Recoverable
    &&& task is RecoverThenEcho
    &&& failed_step == "s1"@
}

/// The inputs on which the revision of `plan` (its steps, then a fallback
/// echo step `s2` and a finish step `s3`) is a valid plan.
pub open spec fn revision_fits(plan: Plan) -> bool {
    revision_fits_h(header_of(plan), plan.steps@)
}

/// `revision_fits` of the plan with header `h` and steps `steps`.
pub open spec fn revision_fits_h(h: PlanHeader, steps: Seq<PlanStep>) -> bool {
    let n = steps.len();
    &&& h.schema_version == PLAN_SCHEMA_VERSION
    &&& budget_valid(h.budget)
    &&& 0 < byte_len(h.plan_id) <= MAX_PLAN_ID_BYTES
    &&& !blank(h.goal)
    &&& byte_len(h.goal) <= MAX_GOAL_BYTES
    &&& n + 2 <= h.budget.max_steps
    &&& forall|k: int| 0 <= k < n ==> #[trigger] step_valid(steps, k)
    &&& !id_among(steps, n as int, "s2"@)
    &&& !id_among(steps, n as int, "s3"@)
    &&& valid_identifier(h.plan_id + ":"@ + "s2"@, MAX_CALL_ID_LEN as nat)
    &&& tool_step_count(steps, n) + 1 <= h.budget.max_tool_calls
}

/// The revisions of the reference planner: none unless a recovery task's
/// step `s1` failed with a recoverable error; then, where the revision
/// fits, the plan's steps followed by a fallback echo step `s2` and a
/// finish step `s3`, at the next revision.
pub open spec fn reference_revision(
    task: PlannerTask,
    h: PlanHeader,
    steps: Seq<PlanStep>,
    failed_step: Seq<char>,
    response: ToolResponse,
    r: Result<Option<Plan>, PlannerError>,
) -> bool {
    let n = steps.len() as int;
    &&& !replan_case(task, failed_step, response) ==> r == Ok::<Option<Plan>, PlannerError>(None)
    &&& replan_case(task, failed_step, response) ==> (r is Ok <==> revision_fits_h(h, steps))
    &&& replan_case(task, failed_step, response) && r is Ok ==> (r matches Ok(Some(_)))
    &&& (r matches Err(e) ==> e is InvalidPlan)
    &&& (r matches Ok(Some(p)) ==> {
        &&& plan_valid(p)
        &&& p.schema_version == h.schema_version
        &&& p.revision == (if h.revision < u32::MAX { h.revision + 1 } else { h.revision as int })
        &&& p.plan_id@ == h.plan_id
        &&& p.goal@ == h.goal
        &&& p.budget == h.budget
        &&& p.steps@.len() == n + 2
        &&& forall|j: int| 0 <= j < n ==> same_step(#[trigger] p.steps@[j], steps[j])
        &&& p.steps@[n].id@ == "s2"@
        &&& p.steps@[n].status == PlanStepStatus::Pending
        &&& p.steps@[n].depends_on@.len() == 0
        &&& p.steps@[n].completion@ == "fallback echo returns requested text"@
        &&& p.steps@[n].action matches PlanAction::Tool(q)
            && q.schema_version == crate::tool_protocol::TOOL_PROTOCOL_SCHEMA_VERSION
            && q.call_id@ == h.plan_id + ":"@ + "s2"@ && q.tool_name@ == "ref.echo"@ && q.tool_version == 1
            && q.arguments@.len() == 1 && q.arguments@[0].name@ == "text"@
            && (q.arguments@[0].value matches ToolValue::String(v)
                && (task matches PlannerTask::RecoverThenEcho { text } && v@ == text@))
        &&& p.steps@[n + 1].id@ == "s3"@
        &&& p.steps@[n + 1].status == PlanStepStatus::Pending
        &&& p.steps@[n + 1].completion@ == "answer equals fallback result"@
        &&& p.steps@[n + 1].depends_on@.len() == 1
        &&& p.steps@[n + 1].depends_on@[0]@ == "s2"@
        &&& p.steps@[n + 1].action matches PlanAction::FinishFromStep(src) && src@ == "s2"@
    })
}

/// Steps that agree on a prefix have the same ids among that prefix.
proof fn lemma_id_among_prefix(a: Seq<PlanStep>, b: Seq<PlanStep>, n: int, m: int, x: Seq<char>)
    requires
        0 <= m <= n <= a.len(),
        n <= b.len(),
        forall|j: int| 0 <= j < n ==> same_step(#[trigger] a[j], b[j]),
    ensures
        id_among(a, m, x) == id_among(b, m, x),
{
    if id_among(a, m, x) {
        let k = choose|k: int| 0 <= k < m && k < a.len() && (#[trigger] a[k]).id@ == x;
        assert(same_step(a[k], b[k]));
        assert(b[k].id@ == x);
    }
    if id_among(b, m, x) {
        let k = choose|k: int| 0 <= k < m && k < b.len() && (#[trigger] b[k]).id@ == x;
        assert(same_step(a[k], b[k]));
        assert(a[k].id@ == x);
    }
}

/// A step of an agreeing prefix is valid in one list exactly when it is in
/// the other.
proof fn lemma_step_valid_prefix(a: Seq<PlanStep>, b: Seq<PlanStep>, n: int, k: int)
    requires
        0 <= k < n <= a.len(),
        n <= b.len(),
        forall|j: int| 0 <= j < n ==> same_step(#[trigger] a[j], b[j]),
    ensures
        step_valid(a, k) == step_valid(b, k),
{
    assert(same_step(a[k], b[k]));
    lemma_id_among_prefix(a, b, n, k, a[k].id@);
    assert forall|x: Seq<char>| #[trigger] id_among(a, k + 1, x) == id_among(b, k + 1, x) by {
        lemma_id_among_prefix(a, b, n, k + 1, x);
    }
    let (s, t) = (a[k], b[k]);
    assert((forall|d: int| 0 <= d < s.depends_on@.len() ==> id_among(a, k + 1, (#[trigger] s.depends_on@[d])@))
        == (forall|d: int| 0 <= d < t.depends_on@.len() ==> id_among(b, k + 1, (#[trigger] t.depends_on@[d])@)));
    match (s.action, t.action) {
        (PlanAction::Tool(x), PlanAction::Tool(y)) => {
            assert(envelope_valid(x) == envelope_valid(y));
        },
        (PlanAction::FinishFromStep(x), PlanAction::FinishFromStep(y)) => {
            assert(id_among(a, k + 1, x@) == id_among(b, k + 1, y@));
        },
        _ => {},
    }
}

/// Steps that agree on a prefix make the same number of tool calls there.
proof fn lemma_tool_count_prefix(a: Seq<PlanStep>, b: Seq<PlanStep>, n: int, m: nat)
    requires
        m <= n <= a.len(),
        n <= b.len(),
        forall|j: int| 0 <= j < n ==> same_step(#[trigger] a[j], b[j]),
    ensures
        tool_step_count(a, m) == tool_step_count(b, m),
    decreases m,
{
    if m > 0 {
        lemma_tool_count_prefix(a, b, n, (m - 1) as nat);
        assert(same_step(a[m - 1], b[m - 1]));
    }
}

/// The revision of a plan is valid exactly on the inputs that fit.
proof fn lemma_revision_valid(plan: Plan, p: Plan)
    requires
        p.schema_version == plan.schema_version,
        p.plan_id@ == plan.plan_id@,
        p.goal@ == plan.goal@,
        p.budget == plan.budget,
        p.steps@.len() == plan.steps@.len() + 2,
        forall|j: int| 0 <= j < plan.steps@.len() ==> same_step(#[trigger] p.steps@[j], plan.steps@[j]),
        p.steps@[plan.steps@.len() as int].id@ == "s2"@,
        p.steps@[plan.steps@.len() as int].depends_on@.len() == 0,
        p.steps@[plan.steps@.len() as int].completion@ == "fallback echo returns requested text"@,
        p.steps@[plan.steps@.len() as int].action matches PlanAction::Tool(q)
            && q.schema_version == crate::tool_protocol::TOOL_PROTOCOL_SCHEMA_VERSION
            && q.call_id@ == plan.plan_id@ + ":"@ + "s2"@ && q.tool_name@ == "ref.echo"@ && q.tool_version == 1
            && q.arguments@.len() == 1 && q.arguments@[0].name@ == "text"@,
        p.steps@[plan.steps@.len() as int + 1].id@ == "s3"@,
        p.steps@[plan.steps@.len() as int + 1].completion@ == "answer equals fallback result"@,
        p.steps@[plan.steps@.len() as int + 1].depends_on@.len() == 1,
        p.steps@[plan.steps@.len() as int + 1].depends_on@[0]@ == "s2"@,
        p.steps@[plan.steps@.len() as int + 1].action matches PlanAction::FinishFromStep(src) && src@ == "s2"@,
    ensures
        plan_valid(p) == revision_fits(plan),
{
    reveal_strlit("s2");
    reveal_strlit("s3");
    reveal_strlit("ref.echo");
    reveal_strlit("text");
    reveal_strlit("fallback echo returns requested text");
    reveal_strlit("answer equals fallback result");
    let a = p.steps@;
    let b = plan.steps@;
    let n = b.len() as int;
    assert(is_ascii_chars("s2"@));
    assert(is_ascii_chars("s3"@));
    lemma_ascii_byte_len("s2"@);
    lemma_ascii_byte_len("s3"@);
    assert forall|k: int| 0 <= k < n implies #[trigger] step_valid(a, k) == step_valid(b, k) by {
        lemma_step_valid_prefix(a, b, n, k);
    }
    lemma_id_among_prefix(a, b, n, n, "s2"@);
    lemma_id_among_prefix(a, b, n, n, "s3"@);
    assert(!is_ws(a[n].completion@[0]));
    assert(!is_ws(a[n + 1].completion@[0]));
    assert(id_among(a, n + 2, "s2"@)) by {
        assert(a[n].id@ == "s2"@);
    }
    assert(id_among(a, n + 1, "s3"@) == id_among(a, n, "s3"@)) by {
        if id_among(a, n + 1, "s3"@) {
            let k = choose|k: int| 0 <= k < n + 1 && k < a.len() && (#[trigger] a[k]).id@ == "s3"@;
            if k == n {
                assert(a[n].id@[1] != "s3"@[1]);
            }
        }
    }
    assert(step_valid(a, n) == (!id_among(b, n, "s2"@) && valid_identifier(plan.plan_id@ + ":"@ + "s2"@, MAX_CALL_ID_LEN as nat)));
    assert(step_valid(a, n + 1) == !id_among(b, n, "s3"@));
    lemma_tool_count_prefix(a, b, n, n as nat);
    assert(tool_step_count(a, (n + 2) as nat) == tool_step_count(b, n as nat) + 1) by {
        assert(tool_step_count(a, (n + 1) as nat) == tool_step_count(a, n as nat) + 1);
    }
    if revision_fits(plan) {
        assert forall|k: int| 0 <= k < a.len() implies #[trigger] step_valid(a, k) by {
            if k < n {
                assert(step_valid(b, k));
            }
        }
    }
    if plan_valid(p) {
        assert forall|k: int| 0 <= k < n implies #[trigger] step_valid(b, k) by {
            assert(step_valid(a, k));
        }
        assert(step_valid(a, n));
        assert(step_valid(a, n + 1));
    }
}

impl Planner for ReferencePlanner {
    open spec fn revises(
        &self,
        task: PlannerTask,
        h: PlanHeader,
        steps: Seq<PlanStep>,
        failed_step: Seq<char>,
        response: ToolResponse,
        r: Result<Option<Plan>, PlannerError>,
    ) -> bool {
        reference_revision(task, h, steps, failed_step, response, r)
    }

    /// A lookup becomes a tool step and a finish step; a recovery task
    /// becomes a single step that calls the error tool.
    fn plan(&self, task: &PlannerTask, budget: PlanBudget) -> (r: Result<Plan, PlannerError>)
        ensures
            r is Ok <==> reference_plan_fits(*task, budget),
            r matches Err(e) ==> e is InvalidPlan,
            r matches Ok(p) ==> {
                &&& plan_valid(p)
                &&& p.budget == budget
                &&& p.revision == 1
                &&& p.goal@ == task.spec_goal()
                &&& p.plan_id@ == reference_plan_id(*task)
                &&& p.steps@.len() == (if task is Lookup { 2int } else { 1int })
                &&& p.schema_version == PLAN_SCHEMA_VERSION
                &&& p.steps@[0].id@ == "s1"@
                &&& p.steps@[0].status == PlanStepStatus::Pending
                &&& p.steps@[0].depends_on@.len() == 0
                &&& p.steps@[0].completion@ == (if task is Lookup { "lookup returns a controlled value"@ }
                    else { "controlled error is observed and triggers replan"@ })
                &&& (task is Lookup ==> p.steps@[1].completion@ == "answer equals lookup result"@)
                &&& p.steps@[0].action matches PlanAction::Tool(q) && q.call_id@ == reference_plan_id(*task) + ":"@ + "s1"@
                    && q.tool_name@ == (if task is Lookup { "lookup"@ } else { "ref.error"@ }) && q.tool_version == 1
                    && q.arguments@.len() == 1
                    && q.arguments@[0].name@ == (if task is Lookup { "key"@ } else { "code"@ })
                    && (q.arguments@[0].value matches ToolValue::String(v) && v@ == (match *task {
                        PlannerTask::Lookup { key } => key@,
                        PlannerTask::RecoverThenEcho { .. } => "busy"@,
                    }))
                &&& task is Lookup ==> p.steps@[1].id@ == "s2"@ && p.steps@[1].status == PlanStepStatus::Pending
                    && p.steps@[1].depends_on@.len() == 1 && p.steps@[1].depends_on@[0]@ == "s1"@
                    && (p.steps@[1].action matches PlanAction::FinishFromStep(src) && src@ == "s1"@)
            },
    {
        budget.validate()?;
        let plan_id = join2("plan-", task.id_suffix().as_str());
        let mut steps: Vec<PlanStep> = Vec::new();
        match task {
            PlannerTask::Lookup { key } => {
                steps.push(tool_step(
                    "s1",
                    Vec::new(),
                    "lookup returns a controlled value",
                    string_request(plan_id.as_str(), "s1", "lookup", "key", key.as_str()),
                ));
                steps.push(finish_from("s2", one_dep("s1"), "answer equals lookup result", "s1"));
            },
            PlannerTask::RecoverThenEcho { .. } => {
                steps.push(tool_step(
                    "s1",
                    Vec::new(),
                    "controlled error is observed and triggers replan",
                    string_request(plan_id.as_str(), "s1", "ref.error", "code", "busy"),
                ));
            },
        }
        let plan = Plan {
            schema_version: PLAN_SCHEMA_VERSION,
            plan_id,
            revision: 1,
            goal: task.goal(),
            budget,
            steps,
        };
        proof {
            if reference_plan_fits(*task, budget) {
                lemma_reference_plan_valid(*task, plan);
            }
        }
        plan.validate()?;
        Ok(plan)
    }

    /// After a recoverable error of step `s1` of a recovery task, the plan
    /// gains a fallback echo step and a finish step, at the next revision.
    /// Anything else has no revision.
    fn replan(&self, task: &PlannerTask, plan: &Plan, failed_step: &str, response: &ToolResponse) -> (r: Result<Option<Plan>, PlannerError>)
        ensures
            !(response matches ToolResponse::Error(e) && e.severity == ToolErrorSeverity::Recoverable) ==> r == Ok::<Option<Plan>, PlannerError>(None),
            task is Lookup ==> r == Ok::<Option<Plan>, PlannerError>(None),
            failed_step@ != "s1"@ ==> r == Ok::<Option<Plan>, PlannerError>(None),
            replan_case(*task, failed_step@, *response) ==> (r is Ok <==> revision_fits(*plan)),
            replan_case(*task, failed_step@, *response) && r is Ok ==> r matches Ok(Some(_)),
            r matches Err(e) ==> e is InvalidPlan,
            r matches Ok(Some(p)) ==> {
                &&& plan_valid(p)
                &&& p.schema_version == plan.schema_version
                &&& p.revision == (if plan.revision < u32::MAX { plan.revision + 1 } else { plan.revision as int })
                &&& p.plan_id@ == plan.plan_id@
                &&& p.goal@ == plan.goal@
                &&& p.budget == plan.budget
                &&& p.steps@.len() == plan.steps@.len() + 2
                &&& forall|j: int| 0 <= j < plan.steps@.len() ==> same_step(#[trigger] p.steps@[j], plan.steps@[j])
                &&& p.steps@[plan.steps@.len() as int].id@ == "s2"@
                &&& p.steps@[plan.steps@.len() as int].status == PlanStepStatus::Pending
                &&& p.steps@[plan.steps@.len() as int].action matches PlanAction::Tool(q)
                    && q.call_id@ == plan.plan_id@ + ":"@ + "s2"@ && q.tool_name@ == "ref.echo"@ && q.tool_version == 1
                    && q.arguments@.len() == 1 && q.arguments@[0].name@ == "text"@
                    && (q.arguments@[0].value matches ToolValue::String(v)
                        && (*task matches PlannerTask::RecoverThenEcho { text } && v@ == text@))
                &&& p.steps@[plan.steps@.len() as int + 1].id@ == "s3"@
                &&& p.steps@[plan.steps@.len() as int + 1].status == PlanStepStatus::Pending
                &&& p.steps@[plan.steps@.len() as int + 1].depends_on@.len() == 1
                &&& p.steps@[plan.steps@.len() as int + 1].depends_on@[0]@ == "s2"@
                &&& p.steps@[plan.steps@.len() as int + 1].action matches PlanAction::FinishFromStep(src) && src@ == "s2"@
            },
    {
        let recoverable = match response {
            ToolResponse::Error(e) => match e.severity {
                ToolErrorSeverity::Recoverable => true,
                ToolErrorSeverity::Fatal => false,
            },
            ToolResponse::Result(_) => false,
        };
        if !recoverable {
            return Ok(None);
        }
        let text = match task {
            PlannerTask::RecoverThenEcho { text } => text,
            PlannerTask::Lookup { .. } => {
                return Ok(None);
            },
        };
        if !same_text(failed_step, "s1") {
            return Ok(None);
        }
        let mut steps: Vec<PlanStep> = Vec::new();
        let mut i: usize = 0;
        while i < plan.steps.len()
            invariant
                i <= plan.steps.len(),
                steps@.len() == i,
                forall|j: int| 0 <= j < i ==> same_step(#[trigger] steps@[j], plan.steps@[j]),
            decreases plan.steps.len() - i,
        {
            steps.push(copy_step(&plan.steps[i]));
            i = i + 1;
        }
        steps.push(tool_step(
            "s2",
            Vec::new(),
            "fallback echo returns requested text",
            string_request(plan.plan_id.as_str(), "s2", "ref.echo", "text", text.as_str()),
        ));
        steps.push(finish_from("s3", one_dep("s2"), "answer equals fallback result", "s2"));
        let revised = Plan {
            schema_version: plan.schema_version,
            plan_id: plan.plan_id.clone(),
            revision: if plan.revision < u32::MAX { plan.revision + 1 } else { plan.revision },
            goal: plan.goal.clone(),
            budget: plan.budget,
            steps,
        };
        proof {
            lemma_revision_valid(*plan, revised);
        }
        revised.validate()?;
        Ok(Some(revised))
    }
}

// ---------------------------------------------------------------------------
// Running plans
// ---------------------------------------------------------------------------

#[derive(Clone, Debug, PartialEq, Eq)]
pub struct PlanRunReport {
    pub success: bool,
    pub answer: Option<String>,
    pub plan_revision: u32,
    pub steps_executed: usize,
    pub tool_calls: usize,
    pub recoverable_errors: usize,
    pub replans: usize,
    pub declared_timeout_ms: u64,
    pub plan_fingerprint: u64,
    pub error: Option<String>,
}

/// `a * k`, or `usize::MAX` where that overflows.
pub open spec fn saturating_times(a: usize, k: usize) -> int {
    if a * k <= usize::MAX { a * k } else { usize::MAX as int }
}

fn saturating_mul(a: usize, k: usize) -> (r: usize)
    ensures
        r == saturating_times(a, k),
{
    match a.checked_mul(k) {
        Some(v) => v,
        None => usize::MAX,
    }
}

impl PlanRunReport {
    /// Steps, plus four per tool call and two per replan, the products
    /// saturating.
    pub fn cost_units(&self) -> (r: usize)
        requires
            self.steps_executed + saturating_times(self.tool_calls, 4) + saturating_times(self.replans, 2) <= usize::MAX,
        ensures
            r == self.steps_executed + saturating_times(self.tool_calls, 4) + saturating_times(self.replans, 2),
    {
        self.steps_executed + saturating_mul(self.tool_calls, 4) + saturating_mul(self.replans, 2)
    }
}

fn failed_report(
    plan: &Plan,
    steps_executed: usize,
    tool_calls: usize,
    recoverable_errors: usize,
    replans: usize,
    declared_timeout_ms: u64,
    fingerprint: u64,
    error: String,
) -> (r: PlanRunReport)
    ensures
        !r.success && r.answer is None && r.error == Some(error),
        r.plan_revision == plan.revision,
        r.steps_executed == steps_executed && r.tool_calls == tool_calls,
        r.recoverable_errors == recoverable_errors && r.replans == replans,
        r.declared_timeout_ms == declared_timeout_ms && r.plan_fingerprint == fingerprint,
{
    PlanRunReport {
        success: false,
        answer: None,
        plan_revision: plan.revision,
        steps_executed,
        tool_calls,
        recoverable_errors,
        replans,
        declared_timeout_ms,
        plan_fingerprint: fingerprint,
        error: Some(error),
    }
}

// ---------------------------------------------------------------------------
// Keyed lists: the first entry with a key is the one that counts
// ---------------------------------------------------------------------------

/// `k` is the first position in `kv` whose key reads `key`.
pub open spec fn first_key_at<V>(kv: Seq<(String, V)>, key: Seq<char>, k: int) -> bool {
    &&& 0 <= k < kv.len()
    &&& kv[k].0@ == key
    &&& forall|j: int| 0 <= j < k ==> kv[j].0@ != key
}

/// The value paired with the first occurrence of `key` in `kv`.
pub open spec fn assoc<V>(kv: Seq<(String, V)>, key: Seq<char>) -> Option<V> {
    if exists|k: int| first_key_at(kv, key, k) {
        Some(kv[choose|k: int| first_key_at(kv, key, k)].1)
    } else {
        None
    }
}

/// The value at the first occurrence of a key is what `assoc` gives.
pub proof fn lemma_assoc_at<V>(kv: Seq<(String, V)>, key: Seq<char>, k: int)
    requires
        first_key_at(kv, key, k),
    ensures
        assoc(kv, key) == Some(kv[k].1),
{
    let c = choose|c: int| first_key_at(kv, key, c);
    assert(first_key_at(kv, key, c));
    if c < k {
        assert(kv[c].0@ != key);
    } else if c > k {
        assert(kv[k].0@ != key);
    }
}

/// A key that occurs at all has a first occurrence.
pub proof fn lemma_first_key_exists<V>(kv: Seq<(String, V)>, key: Seq<char>, j: int)
    requires
        0 <= j < kv.len(),
        kv[j].0@ == key,
    ensures
        exists|k: int| first_key_at(kv, key, k),
    decreases j,
{
    if exists|i: int| 0 <= i < j && kv[i].0@ == key {
        let i = choose|i: int| 0 <= i < j && kv[i].0@ == key;
        lemma_first_key_exists(kv, key, i);
    } else {
        assert(first_key_at(kv, key, j));
    }
}

/// A key that never occurs has no value.
pub proof fn lemma_assoc_absent<V>(kv: Seq<(String, V)>, key: Seq<char>)
    requires
        forall|j: int| 0 <= j < kv.len() ==> kv[j].0@ != key,
    ensures
        assoc(kv, key) is None,
{
    if exists|k: int| first_key_at(kv, key, k) {
        let k = choose|k: int| first_key_at(kv, key, k);
        assert(kv[k].0@ == key);
    }
}

/// Inserting a pair at a position before which its key does not occur
/// gives that key the new value and leaves every other key as it was.
pub proof fn lemma_assoc_insert<V>(kv: Seq<(String, V)>, p: int, pair: (String, V), key: Seq<char>)
    requires
        0 <= p <= kv.len(),
        forall|j: int| 0 <= j < p ==> kv[j].0@ != pair.0@,
    ensures
        assoc(kv.insert(p, pair), key) == (if key == pair.0@ { Some(pair.1) } else { assoc(kv, key) }),
{
    let f = kv.insert(p, pair);
    if key == pair.0@ {
        assert(first_key_at(f, key, p));
        lemma_assoc_at(f, key, p);
    } else if exists|c: int| first_key_at(kv, key, c) {
        let c = choose|c: int| first_key_at(kv, key, c);
        lemma_assoc_at(kv, key, c);
        if c < p {
            assert(first_key_at(f, key, c));
            lemma_assoc_at(f, key, c);
        } else {
            assert forall|j: int| 0 <= j < c + 1 implies f[j].0@ != key by {
                if j > p {
                    assert(f[j] == kv[j - 1]);
                }
            }
            assert(first_key_at(f, key, c + 1));
            lemma_assoc_at(f, key, c + 1);
        }
    } else {
        assert forall|j: int| 0 <= j < f.len() implies f[j].0@ != key by {
            if j < p {
                if kv[j].0@ == key {
                    lemma_first_key_exists(kv, key, j);
                }
            } else if j > p {
                if kv[j - 1].0@ == key {
                    lemma_first_key_exists(kv, key, j - 1);
                }
            }
        }
        lemma_assoc_absent(f, key);
    }
}

/// Replacing the first pair of a key gives that key the new value and
/// leaves every other key as it was.
pub proof fn lemma_assoc_update<V>(kv: Seq<(String, V)>, p: int, pair: (String, V), key: Seq<char>)
    requires
        first_key_at(kv, pair.0@, p),
    ensures
        assoc(kv.update(p, pair), key) == (if key == pair.0@ { Some(pair.1) } else { assoc(kv, key) }),
{
    let f = kv.update(p, pair);
    if key == pair.0@ {
        assert(first_key_at(f, key, p));
        lemma_assoc_at(f, key, p);
    } else if exists|c: int| first_key_at(kv, key, c) {
        let c = choose|c: int| first_key_at(kv, key, c);
        lemma_assoc_at(kv, key, c);
        assert(first_key_at(f, key, c));
        lemma_assoc_at(f, key, c);
    } else {
        assert forall|j: int| 0 <= j < f.len() implies f[j].0@ != key by {
            if j != p && kv[j].0@ == key {
                lemma_first_key_exists(kv, key, j);
            }
        }
        lemma_assoc_absent(f, key);
    }
}

/// `k` is the first step of `steps` with the id `id`.
pub open spec fn first_step_at(steps: Seq<PlanStep>, id: Seq<char>, k: int) -> bool {
    &&& 0 <= k < steps.len()
    &&& steps[k].id@ == id
    &&& forall|j: int| 0 <= j < k ==> steps[j].id@ != id
}

/// The status of the first step with the id `id`.
pub open spec fn step_status(steps: Seq<PlanStep>, id: Seq<char>) -> Option<PlanStepStatus> {
    if exists|k: int| first_step_at(steps, id, k) {
        Some(steps[choose|k: int| first_step_at(steps, id, k)].status)
    } else {
        None
    }
}

/// A step with its status replaced.
pub open spec fn with_status(s: PlanStep, status: PlanStepStatus) -> PlanStep {
    PlanStep { id: s.id, depends_on: s.depends_on, completion: s.completion, status, action: s.action }
}

/// The steps with the status of the first step named `id` replaced.
pub open spec fn marked(steps: Seq<PlanStep>, id: Seq<char>, status: PlanStepStatus) -> Seq<PlanStep> {
    if exists|k: int| first_step_at(steps, id, k) {
        let k = choose|k: int| first_step_at(steps, id, k);
        steps.update(k, with_status(steps[k], status))
    } else {
        steps
    }
}

/// The first step with an id is the one `choose` picks.
pub proof fn lemma_first_step_at(steps: Seq<PlanStep>, id: Seq<char>, k: int)
    requires
        first_step_at(steps, id, k),
    ensures
        (choose|c: int| first_step_at(steps, id, c)) == k,
        step_status(steps, id) == Some(steps[k].status),
        marked(steps, id, PlanStepStatus::Pending) == steps.update(k, with_status(steps[k], PlanStepStatus::Pending)),
        marked(steps, id, PlanStepStatus::Done) == steps.update(k, with_status(steps[k], PlanStepStatus::Done)),
        marked(steps, id, PlanStepStatus::Failed) == steps.update(k, with_status(steps[k], PlanStepStatus::Failed)),
{
    let c = choose|c: int| first_step_at(steps, id, c);
    assert(first_step_at(steps, id, c));
    if c < k {
        assert(steps[c].id@ != id);
    } else if c > k {
        assert(steps[k].id@ != id);
    }
}

/// Sets the status of the first step named `id`.
fn mark_status(plan: &mut Plan, id: &str, status: PlanStepStatus)
    ensures
        final(plan).schema_version == old(plan).schema_version,
        final(plan).plan_id == old(plan).plan_id,
        final(plan).revision == old(plan).revision,
        final(plan).goal == old(plan).goal,
        final(plan).budget == old(plan).budget,
        final(plan).steps@ == marked(old(plan).steps@, id@, status),
        final(plan).steps@.len() == old(plan).steps@.len(),
{
    let mut i: usize = 0;
    while i < plan.steps.len()
        invariant
            i <= plan.steps.len(),
            *plan == *old(plan),
            forall|j: int| 0 <= j < i ==> plan.steps@[j].id@ != id@,
        decreases plan.steps.len() - i,
    {
        if same_text(plan.steps[i].id.as_str(), id) {
            let ghost before = plan.steps@;
            let mut step = plan.steps.remove(i);
            step.status = status;
            plan.steps.insert(i, step);
            proof {
                assert(first_step_at(before, id@, i as int));
                lemma_first_step_at(before, id@, i as int);
                assert(plan.steps@ =~= before.update(i as int, with_status(before[i as int], status)));
                assert(step_status(before, id@) is Some);
            }
            return;
        }
        i = i + 1;
    }
    proof {
        if exists|k: int| first_step_at(plan.steps@, id@, k) {
            let k = choose|k: int| first_step_at(plan.steps@, id@, k);
            assert(plan.steps@[k].id@ == id@);
        }
    }
}

/// The value recorded for `key`.
pub(crate) fn result_of(results: &Vec<(String, String)>, key: &str) -> (r: Option<String>)
    ensures
        r == assoc(results@, key@),
{
    let mut i: usize = 0;
    while i < results.len()
        invariant
            i <= results.len(),
            forall|j: int| 0 <= j < i ==> results@[j].0@ != key@,
        decreases results.len() - i,
    {
        if same_text(results[i].0.as_str(), key) {
            proof {
                assert(first_key_at(results@, key@, i as int));
                lemma_assoc_at(results@, key@, i as int);
            }
            return Some(results[i].1.clone());
        }
        i = i + 1;
    }
    proof { lemma_assoc_absent(results@, key@); }
    None
}

/// Records `value` for `key`, replacing an earlier value.
pub(crate) fn record_result(results: &mut Vec<(String, String)>, key: String, value: String)
    ensures
        forall|k: Seq<char>| #[trigger] assoc(final(results)@, k) == (if k == key@ { Some(value) } else { assoc(old(results)@, k) }),
{
    let ghost pair = (key, value);
    let mut i: usize = 0;
    while i < results.len()
        invariant
            i <= results.len(),
            *results == *old(results),
            pair == (key, value),
            forall|j: int| 0 <= j < i ==> results@[j].0@ != key@,
        decreases results.len() - i,
    {
        if same_text(results[i].0.as_str(), key.as_str()) {
            proof {
                assert(first_key_at(results@, pair.0@, i as int));
            }
            results.set(i, (key, value));
            proof {
                assert forall|k: Seq<char>| #[trigger] assoc(results@, k) == (if k == pair.0@ { Some(pair.1) } else { assoc(old(results)@, k) }) by {
                    lemma_assoc_update(old(results)@, i as int, pair, k);
                }
            }
            return;
        }
        i = i + 1;
    }
    results.push((key, value));
    proof {
        let n = old(results)@.len() as int;
        assert(results@ =~= old(results)@.insert(n, pair));
        assert forall|k: Seq<char>| #[trigger] assoc(results@, k) == (if k == pair.0@ { Some(pair.1) } else { assoc(old(results)@, k) }) by {
            lemma_assoc_insert(old(results)@, n, pair, k);
        }
    }
}

/// The status of the first step named `id`, if any.
fn status_of(plan: &Plan, id: &str) -> (r: Option<PlanStepStatus>)
    ensures
        r == step_status(plan.steps@, id@),
{
    let mut i: usize = 0;
    while i < plan.steps.len()
        invariant
            i <= plan.steps.len(),
            forall|j: int| 0 <= j < i ==> plan.steps@[j].id@ != id@,
        decreases plan.steps.len() - i,
    {
        if same_text(plan.steps[i].id.as_str(), id) {
            proof {
                assert(first_step_at(plan.steps@, id@, i as int));
                lemma_first_step_at(plan.steps@, id@, i as int);
            }
            return Some(plan.steps[i].status);
        }
        i = i + 1;
    }
    proof {
        if exists|k: int| first_step_at(plan.steps@, id@, k) {
            let k = choose|k: int| first_step_at(plan.steps@, id@, k);
            assert(plan.steps@[k].id@ == id@);
        }
    }
    None
}

/// What `run_plan` reports as the fingerprint of a plan that never
/// succeeds: that of the plan it was given, or 0 for an invalid one.
pub open spec fn initial_fingerprint(p: Plan) -> u64 {
    if plan_valid(p) { text_fingerprint(plan_text(p)) } else { 0 }
}

/// Where a plan run stands between two steps: the plan as revised so far
/// (its header) with its steps as they now stand, the next step to look at,
/// the results recorded, the counters, and how many tool responses and
/// planner revisions have been used.
pub struct RunState {
    pub plan: Plan,
    pub steps: Seq<PlanStep>,
    pub cursor: nat,
    pub results: Map<Seq<char>, String>,
    pub steps_executed: nat,
    pub tool_calls: nat,
    pub recoverable_errors: nat,
    pub replans: nat,
    pub declared: u64,
    pub calls: nat,
    pub revisions: nat,
    pub invocations: nat,
}

/// The permission check and reference executor a run calls tools through.
pub struct Gate {
    pub catalog: Seq<ToolDefinition>,
    pub policy: PermissionPolicy,
    pub executor: ReferenceToolExecutor,
}

/// How a plan run ends. `invalid` marks a run stopped because the plan (as
/// revised) failed validation; its error names that check. Otherwise a
/// failed run's error reads `error`.
pub struct RunEnd {
    pub success: bool,
    pub answer: Option<String>,
    pub invalid: bool,
    pub error: Seq<char>,
    pub revision: u32,
    pub steps_executed: nat,
    pub tool_calls: nat,
    pub recoverable_errors: nat,
    pub replans: nat,
    pub declared: u64,
    pub fingerprint: u64,
    pub invocations: nat,
    pub stray: bool,
}

/// Where a run starts.
pub open spec fn run_start(plan: Plan, invocations: nat) -> RunState {
    RunState {
        plan,
        steps: plan.steps@,
        cursor: 0,
        results: Map::empty(),
        steps_executed: 0,
        tool_calls: 0,
        recoverable_errors: 0,
        replans: 0,
        declared: 0,
        calls: 0,
        revisions: 0,
        invocations,
    }
}

/// `a + b`, or `u64::MAX` where that overflows.
pub open spec fn sat_add(a: u64, b: u64) -> u64 {
    if a + b > u64::MAX { u64::MAX } else { (a + b) as u64 }
}

/// The first dependency from position `d` on whose step is not done.
pub open spec fn first_unmet(steps: Seq<PlanStep>, deps: Seq<String>, d: nat) -> Option<nat>
    decreases deps.len() - d,
{
    if d >= deps.len() {
        None
    } else if step_status(steps, deps[d as int]@) == Some(PlanStepStatus::Done) {
        first_unmet(steps, deps, d + 1)
    } else {
        Some(d)
    }
}

/// A run that fails with the error `error` after `steps_executed` steps
/// and with `declared` milliseconds declared.
pub open spec fn run_failed(st: RunState, steps_executed: nat, declared: u64, init_fp: u64, error: Seq<char>) -> RunEnd {
    RunEnd {
        success: false,
        answer: None,
        invalid: false,
        error,
        revision: st.plan.revision,
        steps_executed,
        tool_calls: st.tool_calls,
        recoverable_errors: st.recoverable_errors,
        replans: st.replans,
        declared,
        fingerprint: init_fp,
        invocations: st.invocations,
        stray: false,
    }
}

/// A run that finishes with `answer`, the finishing step marked done.
pub open spec fn run_succeeded(st: RunState, answer: String, init_fp: u64) -> RunEnd {
    let done = marked(st.steps, st.steps[st.cursor as int].id@, PlanStepStatus::Done);
    RunEnd {
        success: true,
        answer: Some(answer),
        invalid: false,
        error: Seq::empty(),
        revision: st.plan.revision,
        steps_executed: st.steps_executed + 1,
        tool_calls: st.tool_calls,
        recoverable_errors: st.recoverable_errors,
        replans: st.replans,
        declared: st.declared,
        fingerprint: if plan_valid_with(st.plan, done) { text_fingerprint(plan_text_with(st.plan, done)) } else { init_fp },
        invocations: st.invocations,
        stray: false,
    }
}

/// The outcome of a plan run from the state `st`, the tool calls answering
/// with `responses` in turn and the planner revising with `revisions` in
/// turn: each step is checked (validity, a step left, the step budget, its
/// dependencies, the tool-call budget, a registered tool, the timeout
/// budget), a tool result is recorded, a recoverable error is handed to
/// the planner, and a finish step answers.
pub open spec fn plan_run<P: Planner>(
    planner: P,
    task: PlannerTask,
    g: Gate,
    reg: Seq<RegistryEntry>,
    init_fp: u64,
    st: RunState,
    responses: Seq<ToolResponse>,
    revisions: Seq<Result<Option<Plan>, PlannerError>>,
) -> RunEnd
    decreases MAX_PLAN_STEPS + 1 - st.cursor,
{
    if st.cursor > MAX_PLAN_STEPS {
        run_failed(st, st.steps_executed, st.declared, init_fp, Seq::empty())
    } else if !plan_valid_with(st.plan, st.steps) {
        RunEnd { invalid: true, ..run_failed(st, st.steps_executed, st.declared, init_fp, Seq::empty()) }
    } else if st.cursor >= st.steps.len() {
        run_failed(st, st.steps_executed, st.declared, init_fp, "plan ended without final answer"@)
    } else if st.steps_executed >= st.plan.budget.max_steps {
        run_failed(st, st.steps_executed, st.declared, init_fp, "plan budget exceeded: "@ + "step budget"@)
    } else {
        let step = st.steps[st.cursor as int];
        if step.status != PlanStepStatus::Pending {
            plan_run(planner, task, g, reg, init_fp, RunState { cursor: st.cursor + 1, ..st }, responses, revisions)
        } else {
            match first_unmet(st.steps, step.depends_on@, 0) {
                Some(d) => {
                    let dep = step.depends_on@[d as int]@;
                    if step_status(st.steps, dep) is None {
                        run_failed(st, st.steps_executed, st.declared, init_fp, "plan dependency error: "@ + ("missing "@ + dep))
                    } else {
                        run_failed(st, st.steps_executed, st.declared, init_fp,
                            "plan dependency error: "@ + (step.id@ + " depends on incomplete "@ + dep))
                    }
                },
                None => {
                    let se = st.steps_executed + 1;
                    match step.action {
                        PlanAction::Tool(q) => {
                            if st.tool_calls >= st.plan.budget.max_tool_calls {
                                run_failed(st, se, st.declared, init_fp, "plan budget exceeded: "@ + "tool-call budget"@)
                            } else if !has_tool(reg, q.tool_name@, q.tool_version) {
                                run_failed(st, se, st.declared, init_fp, "plan tool error: "@ + "unknown planned tool"@)
                            } else {
                                let decl = sat_add(st.declared, tool_timeout(reg, q.tool_name@, q.tool_version));
                                if decl > st.plan.budget.max_timeout_ms {
                                    run_failed(st, se, decl, init_fp, "plan budget exceeded: "@ + "timeout budget"@)
                                } else if st.calls >= responses.len()
                                    || !gate_answer(g.catalog, g.policy, g.executor, q, false, responses[st.calls as int]) {
                                    RunEnd { stray: true, ..run_failed(st, se, decl, init_fp, Seq::empty()) }
                                } else {
                                    let st1 = RunState { steps_executed: se, tool_calls: st.tool_calls + 1, declared: decl,
                                        calls: st.calls + 1,
                                        invocations: if gate_reaches(g.catalog, g.policy, q, false) {
                                            invocations_after(st.invocations) } else { st.invocations },
                                        ..st };
                                    match responses[st.calls as int] {
                                        ToolResponse::Result(res) => plan_run(planner, task, g, reg, init_fp, RunState {
                                            steps: marked(st.steps, step.id@, PlanStepStatus::Done),
                                            cursor: st.cursor + 1,
                                            results: st.results.insert(step.id@, res.content),
                                            ..st1
                                        }, responses, revisions),
                                        ToolResponse::Error(e) => {
                                            let st2 = RunState { steps: marked(st.steps, step.id@, PlanStepStatus::Failed), ..st1 };
                                            if e.severity == ToolErrorSeverity::Fatal {
                                                run_failed(st2, se, decl, init_fp, "plan tool error: "@ + ("fatal "@ + e.code@))
                                            } else {
                                                let st3 = RunState { recoverable_errors: st.recoverable_errors + 1, ..st2 };
                                                if st.revisions >= revisions.len()
                                                    || !planner.revises(task, header_of(st.plan), st2.steps, step.id@,
                                                        responses[st.calls as int], revisions[st.revisions as int]) {
                                                    RunEnd { stray: true, ..run_failed(st3, se, decl, init_fp, Seq::empty()) }
                                                } else {
                                                    match revisions[st.revisions as int] {
                                                        Ok(Some(p2)) => plan_run(planner, task, g, reg, init_fp, RunState {
                                                            plan: p2,
                                                            steps: p2.steps@,
                                                            cursor: st.cursor + 1,
                                                            replans: st.replans + 1,
                                                            revisions: st.revisions + 1,
                                                            ..st3
                                                        }, responses, revisions),
                                                        Ok(None) => run_failed(st3, se, decl, init_fp, "recoverable failure had no valid replan"@),
                                                        Err(err) => run_failed(st3, se, decl, init_fp, err.spec_message()),
                                                    }
                                                }
                                            }
                                        },
                                    }
                                }
                            }
                        },
                        PlanAction::FinishFromStep(src) => {
                            if st.results.dom().contains(src@) {
                                run_succeeded(st, st.results[src@], init_fp)
                            } else {
                                run_failed(st, se, st.declared, init_fp, "plan dependency error: "@ + ("no result for "@ + src@))
                            }
                        },
                        PlanAction::FinishLiteral(v) => run_succeeded(st, v, init_fp),
                    }
                },
            }
        }
    }
}

/// The report says how the run ended.
pub open spec fn report_of_run(r: PlanRunReport, e: RunEnd) -> bool {
    &&& r.success == e.success
    &&& r.answer == e.answer
    &&& r.plan_revision == e.revision
    &&& r.steps_executed == e.steps_executed
    &&& r.tool_calls == e.tool_calls
    &&& r.recoverable_errors == e.recoverable_errors
    &&& r.replans == e.replans
    &&& r.declared_timeout_ms == e.declared
    &&& r.plan_fingerprint == e.fingerprint
    &&& if e.success { r.error is None } else if e.invalid { r.error is Some } else { r.error matches Some(m) && m@ == e.error }
}

/// Replaying a plan reproduces its report: runs of the same plan against
/// the same registry, whose tool calls answer alike and whose planner
/// revises alike, agree on success, answer, revision, counters, declared
/// timeout, fingerprint and the text of the error.
pub proof fn lemma_run_plan_replays<P: Planner>(
    planner: P,
    task: PlannerTask,
    g: Gate,
    plan: Plan,
    invocations: nat,
    reg: Seq<RegistryEntry>,
    responses: Seq<ToolResponse>,
    revisions: Seq<Result<Option<Plan>, PlannerError>>,
    r1: PlanRunReport,
    r2: PlanRunReport,
)
    requires
        report_of_run(r1, plan_run(planner, task, g, reg, initial_fingerprint(plan), run_start(plan, invocations), responses, revisions)),
        report_of_run(r2, plan_run(planner, task, g, reg, initial_fingerprint(plan), run_start(plan, invocations), responses, revisions)),
    ensures
        r1.success == r2.success,
        r1.answer == r2.answer,
        r1.plan_revision == r2.plan_revision,
        r1.steps_executed == r2.steps_executed,
        r1.tool_calls == r2.tool_calls,
        r1.recoverable_errors == r2.recoverable_errors,
        r1.replans == r2.replans,
        r1.declared_timeout_ms == r2.declared_timeout_ms,
        r1.plan_fingerprint == r2.plan_fingerprint,
        r1.error is Some <==> r2.error is Some,
        !plan_run(planner, task, g, reg, initial_fingerprint(plan), run_start(plan, invocations), responses, revisions).invalid
            ==> (r1.error matches Some(a) ==> (r2.error matches Some(b) && a@ == b@)),
{
}

/// What authorization and the reference executor answer to a request reads
/// alike for requests that agree field by field and for executors that
/// serve the same tools alike.
pub proof fn lemma_gate_answer_same(
    c: Seq<ToolDefinition>,
    policy: PermissionPolicy,
    ex1: ReferenceToolExecutor,
    ex0: ReferenceToolExecutor,
    request: ToolRequest,
    q: ToolRequest,
    r: ToolResponse,
)
    requires
        same_request(request, q),
        forall|name: Seq<char>, version: u32| #[trigger] ex1.kind_of(name, version) == ex0.kind_of(name, version),
    ensures
        gate_answer(c, policy, ex1, request, false, r) == gate_answer(c, policy, ex0, q, false, r),
        gate_reaches(c, policy, request, false) == gate_reaches(c, policy, q, false),
{
    let d = requested_definition(c, request);
    assert(requested_definition(c, q) == d);
    assert(ex1.kind_of(d.name@, d.version) == ex0.kind_of(d.name@, d.version));
}

/// A sequence begins with itself.
pub proof fn lemma_extends_self<T>(s: Seq<T>)
    ensures
        extends(s, s),
{
    assert(s.subrange(0, s.len() as int) =~= s);
}

/// The report says how the run ended, on the calls it really made, and the
/// executor has been invoked as the run says.
pub open spec fn run_reported(r: PlanRunReport, e: RunEnd, invocations: nat) -> bool {
    report_of_run(r, e) && !e.stray && invocations == e.invocations
}

/// `seq` begins with `prefix`.
pub open spec fn extends<T>(seq: Seq<T>, prefix: Seq<T>) -> bool {
    prefix.len() <= seq.len() && seq.subrange(0, prefix.len() as int) == prefix
}

/// The plans `a` and `b` agree on everything but their steps.
pub open spec fn same_header(a: Plan, b: Plan) -> bool {
    &&& a.schema_version == b.schema_version
    &&& a.plan_id == b.plan_id
    &&& a.revision == b.revision
    &&& a.goal == b.goal
    &&& a.budget == b.budget
}

/// The value recorded for `k`, if any.
pub open spec fn map_get(m: Map<Seq<char>, String>, k: Seq<char>) -> Option<String> {
    if m.dom().contains(k) { Some(m[k]) } else { None }
}

/// Runs a plan step by step through the permission gate. A step runs only
/// once every dependency is done; budgets of steps, tool calls and declared
/// timeout are enforced before a call; a recoverable tool error stops the
/// plan unless the planner gives a revision. The report is the outcome of
/// `plan_run` for the responses the tool calls gave and the revisions the
/// planner gave, in turn.
#[verifier::rlimit(100)]
#[verifier::spinoff_prover]
pub fn run_plan<P: Planner>(
    task: &PlannerTask,
    planner: &P,
    plan: Plan,
    registry: &ToolRegistry,
    runtime: &mut AuthorizedToolRuntime,
    executor: &mut ReferenceToolExecutor,
) -> (r: PlanRunReport)
    ensures
        exists|responses: Seq<ToolResponse>, revisions: Seq<Result<Option<Plan>, PlannerError>>|
            run_reported(r, #[trigger] plan_run(*planner, *task,
                Gate { catalog: old(runtime).spec_catalog(), policy: old(runtime).spec_policy(), executor: *old(executor) },
                registry.entries(), initial_fingerprint(plan), run_start(plan, old(executor).spec_invocations()), responses, revisions),
                final(executor).spec_invocations()),
        r.success <==> r.answer is Some,
        r.success <==> r.error is None,
        final(runtime).spec_catalog() == old(runtime).spec_catalog(),
        final(runtime).spec_policy() == old(runtime).spec_policy(),
        final(runtime).spec_audit().len() == old(runtime).spec_audit().len() + r.tool_calls,
        r.tool_calls <= r.steps_executed <= MAX_PLAN_STEPS,
        r.tool_calls <= MAX_PLAN_TOOL_CALLS,
        r.replans <= r.recoverable_errors <= r.tool_calls,
        r.success ==> r.declared_timeout_ms <= MAX_PLAN_TIMEOUT_MS && r.steps_executed >= 1,
        !r.success ==> r.plan_fingerprint == initial_fingerprint(plan),
        !plan_valid(plan) ==> {
            &&& !r.success
            &&& r.steps_executed == 0
            &&& *final(runtime) == *old(runtime)
            &&& *final(executor) == *old(executor)
        },
{
    let ghost reg = registry.entries();
    let ghost g = Gate { catalog: runtime.spec_catalog(), policy: runtime.spec_policy(), executor: *executor };
    let ghost st0 = run_start(plan, executor.spec_invocations());
    let initial = match plan.fingerprint() {
        Ok(h) => h,
        Err(_) => 0,
    };
    match plan.validate() {
        Ok(()) => {},
        Err(e) => {
            let r = failed_report(&plan, 0, 0, 0, 0, 0, initial, e.message());
            proof {
                let (rs, vs) = (Seq::<ToolResponse>::empty(), Seq::<Result<Option<Plan>, PlannerError>>::empty());
                assert(run_reported(r, plan_run(*planner, *task, g, reg, initial, st0, rs, vs), executor.spec_invocations()));
                assert(run_reported(r, plan_run(*planner, *task,
                    Gate { catalog: old(runtime).spec_catalog(), policy: old(runtime).spec_policy(), executor: *old(executor) },
                    registry.entries(), initial_fingerprint(plan), run_start(plan, old(executor).spec_invocations()), rs, vs),
                    executor.spec_invocations()));
            }
            return r;
        },
    }
    let ghost plan0 = plan;
    let mut cur = plan;
    let mut results: Vec<(String, String)> = Vec::new();
    let mut cursor: usize = 0;
    let mut steps_executed: usize = 0;
    let mut tool_calls: usize = 0;
    let mut recoverable_errors: usize = 0;
    let mut replans: usize = 0;
    let mut declared_timeout_ms: u64 = 0;
    let ghost mut st = st0;
    let ghost mut got_r: Seq<ToolResponse> = Seq::empty();
    let ghost mut got_v: Seq<Result<Option<Plan>, PlannerError>> = Seq::empty();
    proof {
        assert forall|k: Seq<char>| #[trigger] assoc(results@, k) == map_get(st.results, k) by {
            lemma_assoc_absent(results@, k);
        }
    }
    loop
        invariant
            initial == initial_fingerprint(plan0),
            plan_valid(plan0),
            plan0 == plan,
            reg == registry.entries(),
            st0 == run_start(plan0, g.executor.spec_invocations()),
            g.catalog == old(runtime).spec_catalog(),
            g.policy == old(runtime).spec_policy(),
            g.executor == *old(executor),
            executor.spec_invocations() == st.invocations,
            forall|name: Seq<char>, version: u32| #[trigger] executor.kind_of(name, version) == g.executor.kind_of(name, version),
            cursor <= MAX_PLAN_STEPS,
            tool_calls <= steps_executed <= MAX_PLAN_STEPS,
            tool_calls <= MAX_PLAN_TOOL_CALLS,
            replans <= recoverable_errors <= tool_calls,
            declared_timeout_ms <= MAX_PLAN_TIMEOUT_MS,
            runtime.spec_catalog() == old(runtime).spec_catalog(),
            runtime.spec_policy() == old(runtime).spec_policy(),
            runtime.spec_audit().len() == old(runtime).spec_audit().len() + tool_calls,
            same_header(cur, st.plan),
            st.steps == cur.steps@,
            st.cursor == cursor,
            st.steps_executed == steps_executed,
            st.tool_calls == tool_calls,
            st.recoverable_errors == recoverable_errors,
            st.replans == replans,
            st.declared == declared_timeout_ms,
            st.calls == got_r.len(),
            st.revisions == got_v.len(),
            forall|k: Seq<char>| #[trigger] assoc(results@, k) == map_get(st.results, k),
            forall|rs: Seq<ToolResponse>, vs: Seq<Result<Option<Plan>, PlannerError>>|
                extends(rs, got_r) && extends(vs, got_v) ==>
                #[trigger] plan_run(*planner, *task, g, reg, initial, st0, rs, vs) == plan_run(*planner, *task, g, reg, initial, st, rs, vs),
        decreases MAX_PLAN_STEPS + 1 - cursor,
    {
        proof {
            lemma_extends_self(got_r);
            lemma_extends_self(got_v);
            assert(plan_run(*planner, *task, g, reg, initial, st0, got_r, got_v) == plan_run(*planner, *task, g, reg, initial, st, got_r, got_v));
        }
        match cur.validate() {
            Ok(()) => {},
            Err(e) => {
                let r = failed_report(&cur, steps_executed, tool_calls, recoverable_errors, replans, declared_timeout_ms, initial, e.message());
                assert(run_reported(r, plan_run(*planner, *task, g, reg, initial, st0, got_r, got_v), executor.spec_invocations()));
                return r;
            },
        }
        if cursor >= cur.steps.len() {
            let r = failed_report(&cur, steps_executed, tool_calls, recoverable_errors, replans, declared_timeout_ms, initial,
                PlannerError::NoAnswer.message());
            assert(run_reported(r, plan_run(*planner, *task, g, reg, initial, st0, got_r, got_v), executor.spec_invocations()));
            return r;
        }
        if steps_executed >= cur.budget.max_steps {
            let r = failed_report(&cur, steps_executed, tool_calls, recoverable_errors, replans, declared_timeout_ms, initial,
                PlannerError::Budget(string_from("step budget")).message());
            assert(run_reported(r, plan_run(*planner, *task, g, reg, initial, st0, got_r, got_v), executor.spec_invocations()));
            return r;
        }
        let step_id = cur.steps[cursor].id.clone();
        let ghost step = st.steps[cursor as int];
        match cur.steps[cursor].status {
            PlanStepStatus::Pending => {},
            _ => {
                proof {
                    let st1 = RunState { cursor: st.cursor + 1, ..st };
                    assert forall|rs: Seq<ToolResponse>, vs: Seq<Result<Option<Plan>, PlannerError>>|
                        extends(rs, got_r) && extends(vs, got_v) implies
                        #[trigger] plan_run(*planner, *task, g, reg, initial, st0, rs, vs) == plan_run(*planner, *task, g, reg, initial, st1, rs, vs) by {
                        assert(plan_run(*planner, *task, g, reg, initial, st0, rs, vs) == plan_run(*planner, *task, g, reg, initial, st, rs, vs));
                    }
                    st = st1;
                }
                cursor = cursor + 1;
                continue;
            },
        }
        let deps = cur.steps[cursor].depends_on.clone();
        proof { assert(deps@ =~= step.depends_on@); }
        let mut d: usize = 0;
        #[verifier::loop_isolation(false)]
        while d < deps.len()
            invariant
                d <= deps.len(),
                first_unmet(st.steps, deps@, 0) == first_unmet(st.steps, deps@, d as nat),
            decreases deps.len() - d,
        {
            match status_of(&cur, deps[d].as_str()) {
                None => {
                    let r = failed_report(&cur, steps_executed, tool_calls, recoverable_errors, replans, declared_timeout_ms, initial,
                        PlannerError::Dependency(join2("missing ", deps[d].as_str())).message());
                    assert(run_reported(r, plan_run(*planner, *task, g, reg, initial, st0, got_r, got_v), executor.spec_invocations()));
                    return r;
                },
                Some(PlanStepStatus::Done) => {},
                Some(_) => {
                    let r = failed_report(&cur, steps_executed, tool_calls, recoverable_errors, replans, declared_timeout_ms, initial,
                        PlannerError::Dependency(join3(step_id.as_str(), " depends on incomplete ", deps[d].as_str())).message());
                    assert(run_reported(r, plan_run(*planner, *task, g, reg, initial, st0, got_r, got_v), executor.spec_invocations()));
                    return r;
                },
            }
            d = d + 1;
        }
        assert(first_unmet(st.steps, step.depends_on@, 0) is None);
        steps_executed = steps_executed + 1;
        let action = copy_action(&cur.steps[cursor].action);
        match action {
            PlanAction::Tool(request) => {
                if tool_calls >= cur.budget.max_tool_calls {
                    let r = failed_report(&cur, steps_executed, tool_calls, recoverable_errors, replans, declared_timeout_ms, initial,
                        PlannerError::Budget(string_from("tool-call budget")).message());
                    assert(run_reported(r, plan_run(*planner, *task, g, reg, initial, st0, got_r, got_v), executor.spec_invocations()));
                    return r;
                }
                let timeout = match registry.resolve(request.tool_name.as_str(), request.tool_version) {
                    Some(definition) => definition.timeout_ms,
                    None => {
                        let r = failed_report(&cur, steps_executed, tool_calls, recoverable_errors, replans, declared_timeout_ms, initial,
                            PlannerError::Tool(string_from("unknown planned tool")).message());
                        assert(run_reported(r, plan_run(*planner, *task, g, reg, initial, st0, got_r, got_v), executor.spec_invocations()));
                        return r;
                    },
                };
                let declared = declared_timeout_ms.saturating_add(timeout);
                if declared > cur.budget.max_timeout_ms {
                    let r = failed_report(&cur, steps_executed, tool_calls, recoverable_errors, replans, declared, initial,
                        PlannerError::Budget(string_from("timeout budget")).message());
                    assert(run_reported(r, plan_run(*planner, *task, g, reg, initial, st0, got_r, got_v), executor.spec_invocations()));
                    return r;
                }
                declared_timeout_ms = declared;
                tool_calls = tool_calls + 1;
                let ghost ex_before = *executor;
                let response = runtime.invoke_reference(&request, false, executor);
                proof {
                    match step.action {
                        PlanAction::Tool(q) => {
                            lemma_gate_answer_same(g.catalog, g.policy, ex_before, g.executor, request, q, response);
                        },
                        _ => {},
                    }
                }
                let ghost st1 = RunState { steps_executed: st.steps_executed + 1, tool_calls: st.tool_calls + 1, declared: declared,
                    calls: st.calls + 1,
                    invocations: executor.spec_invocations(),
                    ..st };
                let ghost got_r1 = got_r.push(response);
                match &response {
                    ToolResponse::Result(result) => {
                        record_result(&mut results, step_id.clone(), result.content.clone());
                        mark_status(&mut cur, step_id.as_str(), PlanStepStatus::Done);
                        proof {
                            let st2 = RunState {
                                steps: marked(st.steps, step.id@, PlanStepStatus::Done),
                                cursor: st.cursor + 1,
                                results: st.results.insert(step.id@, result.content),
                                ..st1
                            };
                            assert forall|rs: Seq<ToolResponse>, vs: Seq<Result<Option<Plan>, PlannerError>>|
                                extends(rs, got_r1) && extends(vs, got_v) implies
                                #[trigger] plan_run(*planner, *task, g, reg, initial, st0, rs, vs) == plan_run(*planner, *task, g, reg, initial, st2, rs, vs) by {
                                assert(rs.subrange(0, got_r.len() as int) =~= got_r);
                                assert(rs[got_r.len() as int] == rs.subrange(0, got_r1.len() as int)[got_r.len() as int]);
                                assert(plan_run(*planner, *task, g, reg, initial, st0, rs, vs) == plan_run(*planner, *task, g, reg, initial, st, rs, vs));
                            }
                            assert forall|k: Seq<char>| #[trigger] assoc(results@, k) == map_get(st2.results, k) by {}
                            st = st2;
                            got_r = got_r1;
                        }
                        cursor = cursor + 1;
                    },
                    ToolResponse::Error(error) => {
                        mark_status(&mut cur, step_id.as_str(), PlanStepStatus::Failed);
                        let ghost st2 = RunState { steps: marked(st.steps, step.id@, PlanStepStatus::Failed), ..st1 };
                        proof {
                            assert forall|rs: Seq<ToolResponse>, vs: Seq<Result<Option<Plan>, PlannerError>>|
                                extends(rs, got_r1) && extends(vs, got_v) implies
                                #[trigger] plan_run(*planner, *task, g, reg, initial, st0, rs, vs) == plan_run(*planner, *task, g, reg, initial, st, rs, vs)
                                && rs[got_r.len() as int] == response by {
                                assert(rs.subrange(0, got_r.len() as int) =~= got_r);
                                assert(rs[got_r.len() as int] == rs.subrange(0, got_r1.len() as int)[got_r.len() as int]);
                            }
                        }
                        match error.severity {
                            ToolErrorSeverity::Recoverable => {
                                recoverable_errors = recoverable_errors + 1;
                                let ghost st3 = RunState { recoverable_errors: st.recoverable_errors + 1, ..st2 };
                                let revision = planner.replan(task, &cur, step_id.as_str(), &response);
                                let ghost got_v1 = got_v.push(revision);
                                proof {
                                    assert forall|rs: Seq<ToolResponse>, vs: Seq<Result<Option<Plan>, PlannerError>>|
                                        extends(rs, got_r1) && extends(vs, got_v1) implies
                                        #[trigger] plan_run(*planner, *task, g, reg, initial, st0, rs, vs) == plan_run(*planner, *task, g, reg, initial, st, rs, vs)
                                        && rs[got_r.len() as int] == response && vs[got_v.len() as int] == revision by {
                                        assert(vs.subrange(0, got_v.len() as int) =~= got_v);
                                        assert(vs[got_v.len() as int] == vs.subrange(0, got_v1.len() as int)[got_v.len() as int]);
                                        assert(rs.subrange(0, got_r.len() as int) =~= got_r);
                                        assert(rs[got_r.len() as int] == rs.subrange(0, got_r1.len() as int)[got_r.len() as int]);
                                    }
                                    lemma_extends_self(got_r1);
                                    lemma_extends_self(got_v1);
                                }
                                match revision {
                                    Ok(Some(revised)) => {
                                        proof {
                                            let st4 = RunState {
                                                plan: revised,
                                                steps: revised.steps@,
                                                cursor: st.cursor + 1,
                                                replans: st.replans + 1,
                                                revisions: st.revisions + 1,
                                                ..st3
                                            };
                                            assert forall|rs: Seq<ToolResponse>, vs: Seq<Result<Option<Plan>, PlannerError>>|
                                                extends(rs, got_r1) && extends(vs, got_v1) implies
                                                #[trigger] plan_run(*planner, *task, g, reg, initial, st0, rs, vs) == plan_run(*planner, *task, g, reg, initial, st4, rs, vs) by {
                                                assert(plan_run(*planner, *task, g, reg, initial, st0, rs, vs) == plan_run(*planner, *task, g, reg, initial, st, rs, vs));
                                            }
                                            st = st4;
                                            got_r = got_r1;
                                            got_v = got_v1;
                                        }
                                        cur = revised;
                                        replans = replans + 1;
                                        cursor = cursor + 1;
                                    },
                                    Ok(None) => {
                                        let r = failed_report(&cur, steps_executed, tool_calls, recoverable_errors, replans, declared_timeout_ms,
                                            initial, PlannerError::NoReplan.message());
                                        assert(plan_run(*planner, *task, g, reg, initial, st0, got_r1, got_v1) == plan_run(*planner, *task, g, reg, initial, st, got_r1, got_v1));
                                        assert(run_reported(r, plan_run(*planner, *task, g, reg, initial, st0, got_r1, got_v1), executor.spec_invocations()));
                                        return r;
                                    },
                                    Err(err) => {
                                        let r = failed_report(&cur, steps_executed, tool_calls, recoverable_errors, replans, declared_timeout_ms,
                                            initial, err.message());
                                        assert(plan_run(*planner, *task, g, reg, initial, st0, got_r1, got_v1) == plan_run(*planner, *task, g, reg, initial, st, got_r1, got_v1));
                                        assert(run_reported(r, plan_run(*planner, *task, g, reg, initial, st0, got_r1, got_v1), executor.spec_invocations()));
                                        return r;
                                    },
                                }
                            },
                            ToolErrorSeverity::Fatal => {
                                let detail = join2("fatal ", error.code.as_str());
                                let r = failed_report(&cur, steps_executed, tool_calls, recoverable_errors, replans, declared_timeout_ms,
                                    initial, PlannerError::Tool(detail).message());
                                proof {
                                    lemma_extends_self(got_r1);
                                    lemma_extends_self(got_v);
                                    assert(plan_run(*planner, *task, g, reg, initial, st0, got_r1, got_v) == plan_run(*planner, *task, g, reg, initial, st, got_r1, got_v));
                                }
                                assert(run_reported(r, plan_run(*planner, *task, g, reg, initial, st0, got_r1, got_v), executor.spec_invocations()));
                                return r;
                            },
                        }
                    },
                }
            },
            PlanAction::FinishFromStep(source) => {
                let answer = match result_of(&results, source.as_str()) {
                    Some(a) => a,
                    None => {
                        let r = failed_report(&cur, steps_executed, tool_calls, recoverable_errors, replans, declared_timeout_ms, initial,
                            PlannerError::Dependency(join2("no result for ", source.as_str())).message());
                        assert(run_reported(r, plan_run(*planner, *task, g, reg, initial, st0, got_r, got_v), executor.spec_invocations()));
                        return r;
                    },
                };
                mark_status(&mut cur, step_id.as_str(), PlanStepStatus::Done);
                let fp = match cur.fingerprint() {
                    Ok(h) => h,
                    Err(_) => initial,
                };
                let r = PlanRunReport {
                    success: true,
                    answer: Some(answer),
                    plan_revision: cur.revision,
                    steps_executed,
                    tool_calls,
                    recoverable_errors,
                    replans,
                    declared_timeout_ms,
                    plan_fingerprint: fp,
                    error: None,
                };
                assert(run_reported(r, plan_run(*planner, *task, g, reg, initial, st0, got_r, got_v), executor.spec_invocations()));
                return r;
            },
            PlanAction::FinishLiteral(answer) => {
                mark_status(&mut cur, step_id.as_str(), PlanStepStatus::Done);
                let fp = match cur.fingerprint() {
                    Ok(h) => h,
                    Err(_) => initial,
                };
                let r = PlanRunReport {
                    success: true,
                    answer: Some(answer),
                    plan_revision: cur.revision,
                    steps_executed,
                    tool_calls,
                    recoverable_errors,
                    replans,
                    declared_timeout_ms,
                    plan_fingerprint: fp,
                    error: None,
                };
                assert(run_reported(r, plan_run(*planner, *task, g, reg, initial, st0, got_r, got_v), executor.spec_invocations()));
                return r;
            },
        }
    }
}

/// The tool a direct run calls for a task.
pub open spec fn direct_tool(task: PlannerTask) -> Seq<char> {
    match task {
        PlannerTask::Lookup { .. } => "lookup"@,
        PlannerTask::RecoverThenEcho { .. } => "ref.error"@,
    }
}

/// One tool call with no plan, no retry and no replan.
pub fn run_direct(
    task: &PlannerTask,
    registry: &ToolRegistry,
    runtime: &mut AuthorizedToolRuntime,
    executor: &mut ReferenceToolExecutor,
) -> (r: PlanRunReport)
    ensures
        r.success <==> r.answer is Some,
        r.success <==> r.error is None,
        r.steps_executed == 1 && r.replans == 0 && r.plan_revision == 0 && r.plan_fingerprint == 0,
        final(runtime).spec_catalog() == old(runtime).spec_catalog(),
        final(runtime).spec_policy() == old(runtime).spec_policy(),
        final(runtime).spec_audit().len() == old(runtime).spec_audit().len() + r.tool_calls,
        !has_tool(registry.entries(), direct_tool(*task), 1) ==> {
            &&& !r.success && r.tool_calls == 0
            &&& *final(runtime) == *old(runtime)
            &&& *final(executor) == *old(executor)
        },
        has_tool(registry.entries(), direct_tool(*task), 1) ==> r.tool_calls == 1 && r.declared_timeout_ms <= 5000,
        has_tool(registry.entries(), direct_tool(*task), 1) ==> exists|i: int| 0 <= i < registry.entries().len()
            && (#[trigger] registry.entries()[i]).definition.name@ == direct_tool(*task)
            && registry.entries()[i].definition.version == 1
            && exists|request: ToolRequest, response: ToolResponse| #[trigger] direct_outcome(response,
                direct_timeout(registry.entries()[i].definition.timeout_ms), r)
                && #[trigger] direct_request(*task, request)
                && gate_answer(old(runtime).spec_catalog(), old(runtime).spec_policy(), *old(executor), request, false, response)
                && final(executor).spec_invocations() == (if gate_reaches(old(runtime).spec_catalog(), old(runtime).spec_policy(), request, false) {
                    invocations_after(old(executor).spec_invocations()) } else { old(executor).spec_invocations() }),
        !has_tool(registry.entries(), direct_tool(*task), 1) ==> (r.error matches Some(m) && m@ == "unknown direct tool"@),
        r.recoverable_errors <= r.tool_calls,
{
    let budget = PlanBudget::default();
    let request = match task {
        PlannerTask::Lookup { key } => string_request("direct", "s1", "lookup", "key", key.as_str()),
        PlannerTask::RecoverThenEcho { .. } => string_request("direct", "s1", "ref.error", "code", "busy"),
    };
    let ghost mut def = arbitrary::<crate::tool_protocol::ToolDefinition>();
    let timeout = match registry.resolve(request.tool_name.as_str(), request.tool_version) {
        Some(definition) => {
            proof { def = *definition; }
            definition.timeout_ms
        },
        None => {
            return PlanRunReport {
                success: false,
                answer: None,
                plan_revision: 0,
                steps_executed: 1,
                tool_calls: 0,
                recoverable_errors: 0,
                replans: 0,
                declared_timeout_ms: 0,
                plan_fingerprint: 0,
                error: Some(string_from("unknown direct tool")),
            };
        },
    };
    let declared = if timeout < budget.max_timeout_ms { timeout } else { budget.max_timeout_ms };
    let ghost ex0 = *executor;
    let response = runtime.invoke_reference(&request, false, executor);
    let ghost answered = response;
    let r = direct_report(response, declared);
    proof {
        reveal_strlit("direct");
        reveal_strlit(":");
        reveal_strlit("s1");
        reveal_strlit("direct:s1");
        assert("direct"@ + ":"@ + "s1"@ =~= "direct:s1"@);
        reveal_strlit("lookup");
        reveal_strlit("ref.error");
        let i = choose|i: int| 0 <= i < registry.entries().len() && registry.entries()[i].definition == def;
        assert(declared == direct_timeout(registry.entries()[i].definition.timeout_ms));
        assert(direct_outcome(answered, direct_timeout(registry.entries()[i].definition.timeout_ms), r));
        reveal_strlit("key");
        reveal_strlit("code");
        reveal_strlit("busy");
        assert(direct_request(*task, request));
    }
    r
}

/// The request of a direct run: call id `direct:s1`, the task's tool at
/// version 1 and its one string argument.
pub open spec fn direct_request(task: PlannerTask, q: ToolRequest) -> bool {
    &&& q.schema_version == crate::tool_protocol::TOOL_PROTOCOL_SCHEMA_VERSION
    &&& q.call_id@ == "direct:s1"@
    &&& q.tool_name@ == direct_tool(task)
    &&& q.tool_version == 1
    &&& q.arguments@.len() == 1
    &&& match task {
        PlannerTask::Lookup { key } => q.arguments@[0].name@ == "key"@
            && (q.arguments@[0].value matches ToolValue::String(v) && v@ == key@),
        PlannerTask::RecoverThenEcho { .. } => q.arguments@[0].name@ == "code"@
            && (q.arguments@[0].value matches ToolValue::String(v) && v@ == "busy"@),
    }
}

/// The timeout a direct run declares: the tool's, capped at the default
/// budget's limit.
pub open spec fn direct_timeout(t: u64) -> u64 {
    if t < 5000 { t } else { 5000 }
}

/// The report of a direct run from the tool's response: a result is the
/// answer; an error fails the run with its code as the error, counting a
/// recoverable one.
pub open spec fn direct_outcome(response: ToolResponse, declared: u64, r: PlanRunReport) -> bool {
    &&& r.plan_revision == 0 && r.steps_executed == 1 && r.tool_calls == 1 && r.replans == 0
    &&& r.declared_timeout_ms == declared && r.plan_fingerprint == 0
    &&& match response {
        ToolResponse::Result(res) => r.success && r.answer == Some(res.content) && r.error is None
            && r.recoverable_errors == 0,
        ToolResponse::Error(e) => !r.success && r.answer is None && r.error == Some(e.code)
            && r.recoverable_errors == (if e.severity == ToolErrorSeverity::Recoverable { 1usize } else { 0usize }),
    }
}

/// Builds the report of a direct run from the tool's response.
pub fn direct_report(response: ToolResponse, declared: u64) -> (r: PlanRunReport)
    ensures
        direct_outcome(response, declared, r),
{
    match response {
        ToolResponse::Result(result) => PlanRunReport {
            success: true,
            answer: Some(result.content),
            plan_revision: 0,
            steps_executed: 1,
            tool_calls: 1,
            recoverable_errors: 0,
            replans: 0,
            declared_timeout_ms: declared,
            plan_fingerprint: 0,
            error: None,
        },
        ToolResponse::Error(error) => PlanRunReport {
            success: false,
            answer: None,
            plan_revision: 0,
            steps_executed: 1,
            tool_calls: 1,
            recoverable_errors: match error.severity {
                ToolErrorSeverity::Recoverable => 1,
                ToolErrorSeverity::Fatal => 0,
            },
            replans: 0,
            declared_timeout_ms: declared,
            plan_fingerprint: 0,
            error: Some(error.code),
        },
    }
}

} // verus!
