//! Versioned local session: ephemeral REPL state, never model weights.
//!
//! Tools and planner stay off by default. Recording a tool intent invokes
//! nothing. Secrets are redacted before an event is kept.

use vstd::prelude::*;
use crate::plan_executor::{escape_log_text, log_esc, log_esc_char};
use crate::planner::{blank, is_ws};
use crate::protocol_text::{lines_of, split_lines, strings_view};
use crate::text::{
    parse_bounded, chars_of, contains, contains_seq, dec, has_prefix, join2, join3, parse_unsigned_in, push_char, push_str, push_u64,
    same_text, starts_with, string_from, string_of,
};
use crate::trace::{redact, redact_spec};

verus! {

pub const SESSION_SCHEMA_VERSION: u32 = 1;

#[derive(Clone, Copy, Debug, PartialEq, Eq)]
pub enum SessionStatus {
    Active,
    Interrupted,
    Closed,
}

impl SessionStatus {
    pub open spec fn spec_name(self) -> Seq<char> {
        match self {
            SessionStatus::Active => "active"@,
            SessionStatus::Interrupted => "interrupted"@,
            SessionStatus::Closed => "closed"@,
        }
    }

    pub fn as_str(self) -> (r: &'static str)
        ensures
            r@ == self.spec_name(),
    {
        match self {
            SessionStatus::Active => "active",
            SessionStatus::Interrupted => "interrupted",
            SessionStatus::Closed => "closed",
        }
    }

    fn parse(value: &str) -> (r: Result<SessionStatus, SessionError>)
        ensures
            r matches Ok(s) ==> s.spec_name() == value@ && status_named(value@) == Some(s),
            r is Err ==> status_named(value@) is None,
            r is Err ==> (r matches Err(SessionError::Invalid(m)) && m@ == "status "@ + value@),
    {
        proof {
            reveal_strlit("active");
            reveal_strlit("interrupted");
            reveal_strlit("closed");
        }
        if same_text(value, "active") {
            Ok(SessionStatus::Active)
        } else if same_text(value, "interrupted") {
            Ok(SessionStatus::Interrupted)
        } else if same_text(value, "closed") {
            Ok(SessionStatus::Closed)
        } else {
            Err(SessionError::Invalid(join2("status ", value)))
        }
    }
}

#[derive(Clone, Copy, Debug, PartialEq, Eq)]
pub enum EventKind {
    User,
    Assistant,
    System,
    ToolIntent,
    Error,
    Interrupt,
}

impl EventKind {
    pub open spec fn spec_name(self) -> Seq<char> {
        match self {
            EventKind::User => "user"@,
            EventKind::Assistant => "assistant"@,
            EventKind::System => "system"@,
            EventKind::ToolIntent => "tool-intent"@,
            EventKind::Error => "error"@,
            EventKind::Interrupt => "interrupt"@,
        }
    }

    pub fn as_str(self) -> (r: &'static str)
        ensures
            r@ == self.spec_name(),
    {
        match self {
            EventKind::User => "user",
            EventKind::Assistant => "assistant",
            EventKind::System => "system",
            EventKind::ToolIntent => "tool-intent",
            EventKind::Error => "error",
            EventKind::Interrupt => "interrupt",
        }
    }

    fn parse(value: &str) -> (r: Result<EventKind, SessionError>)
        ensures
            r matches Ok(k) ==> k.spec_name() == value@ && kind_named(value@) == Some(k),
            r is Err ==> kind_named(value@) is None,
            r is Err ==> (r matches Err(SessionError::Invalid(m)) && m@ == "kind "@ + value@),
    {
        proof {
            reveal_strlit("user");
            reveal_strlit("assistant");
            reveal_strlit("system");
            reveal_strlit("tool-intent");
            reveal_strlit("error");
            reveal_strlit("interrupt");
        }
        if same_text(value, "user") {
            Ok(EventKind::User)
        } else if same_text(value, "assistant") {
            Ok(EventKind::Assistant)
        } else if same_text(value, "system") {
            Ok(EventKind::System)
        } else if same_text(value, "tool-intent") {
            Ok(EventKind::ToolIntent)
        } else if same_text(value, "error") {
            Ok(EventKind::Error)
        } else if same_text(value, "interrupt") {
            Ok(EventKind::Interrupt)
        } else {
            Err(SessionError::Invalid(join2("kind ", value)))
        }
    }
}

#[derive(Clone, Debug, PartialEq, Eq)]
pub struct SessionEvent {
    pub seq: u32,
    pub kind: EventKind,
    pub payload: String,
}

#[derive(Clone, Debug, PartialEq, Eq)]
pub struct Session {
    pub session_id: String,
    pub schema_version: u32,
    pub generation: u32,
    pub status: SessionStatus,
    pub tools_enabled: bool,
    pub planner_enabled: bool,
    pub model_checkpoint: String,
    pub events: Vec<SessionEvent>,
}

#[derive(Clone, Debug, PartialEq, Eq)]
pub enum SessionError {
    IncompatibleSchema(u32),
    Invalid(String),
    Closed,
}

impl SessionError {
    /// Human-readable text of the error (its `Display` form).
    pub fn message(&self) -> (r: String)
        ensures
            self matches SessionError::IncompatibleSchema(v) ==> r@ == "incompatible session schema "@ + dec(v as nat),
            self matches SessionError::Invalid(d) ==> r@ == "invalid session: "@ + d@,
            self is Closed ==> r@ == "session is closed"@,
    {
        match self {
            SessionError::IncompatibleSchema(v) => {
                let mut m = string_from("incompatible session schema ");
                push_u64(&mut m, *v as u64);
                m
            },
            SessionError::Invalid(d) => join2("invalid session: ", d.as_str()),
            SessionError::Closed => string_from("session is closed"),
        }
    }
}

pub open spec fn event_text(e: SessionEvent) -> Seq<char> {
    "event="@ + dec(e.seq as nat) + "|"@ + e.kind.spec_name() + "|"@ + log_esc(e.payload@) + "\n"@
}

pub open spec fn events_text(es: Seq<SessionEvent>, n: nat) -> Seq<char>
    decreases n,
{
    if n == 0 || n > es.len() {
        Seq::empty()
    } else {
        events_text(es, (n - 1) as nat) + event_text(es[n - 1])
    }
}

pub open spec fn flag(b: bool) -> Seq<char> {
    if b { "1"@ } else { "0"@ }
}

/// The canonical text of a session.
pub open spec fn session_text(s: Session) -> Seq<char> {
    "auralis_session="@ + dec(s.schema_version as nat) + "\n"@ + "session_id="@ + log_esc(s.session_id@) + "\n"@
        + "generation="@ + dec(s.generation as nat) + "\n"@ + "status="@ + s.status.spec_name() + "\n"@
        + "tools="@ + flag(s.tools_enabled) + "\n"@ + "planner="@ + flag(s.planner_enabled) + "\n"@
        + "checkpoint="@ + log_esc(s.model_checkpoint@) + "\n"@ + events_text(s.events@, s.events@.len())
}

/// Text that holds none of the markers of an unredacted secret.
pub open spec fn secret_free(t: Seq<char>) -> bool {
    !contains_seq(t, "SECRET"@) && !contains_seq(t, "sk-live-"@) && !contains_seq(t, "password="@)
}

/// Everything but the event list stays.
pub open spec fn same_header(a: Session, b: Session) -> bool {
    &&& a.session_id == b.session_id
    &&& a.schema_version == b.schema_version
    &&& a.generation == b.generation
    &&& a.tools_enabled == b.tools_enabled
    &&& a.planner_enabled == b.planner_enabled
    &&& a.model_checkpoint == b.model_checkpoint
}

/// The result of appending an event of `kind` with `payload` to an open
/// session.
pub open spec fn pushed(old: Session, new: Session, kind: EventKind, payload: Seq<char>) -> bool {
    &&& same_header(old, new)
    &&& new.events@.len() == old.events@.len() + 1
    &&& new.events@.drop_last() == old.events@
    &&& new.events@.last().seq as int == old.events@.len() % 0x1_0000_0000
    &&& new.events@.last().kind == kind
    &&& new.events@.last().payload@ == redact_spec(payload)
    &&& new.status == (if old.status == SessionStatus::Interrupted && kind != EventKind::Interrupt {
        SessionStatus::Active
    } else {
        old.status
    })
}

/// What the lines read so far say of a session.
pub struct LoadState {
    pub schema: Option<u32>,
    pub session_id: Option<Seq<char>>,
    pub generation: Option<u32>,
    pub status: Option<SessionStatus>,
    pub tools: Option<bool>,
    pub planner: Option<bool>,
    pub checkpoint: Option<Seq<char>>,
    pub events: Seq<(u32, EventKind, Seq<char>)>,
}

/// Why a text does not load.
pub enum LoadFailure {
    Schema(u32),
    Invalid(Seq<char>),
}

pub open spec fn no_lines_read() -> LoadState {
    LoadState {
        schema: None,
        session_id: None,
        generation: None,
        status: None,
        tools: None,
        planner: None,
        checkpoint: None,
        events: Seq::empty(),
    }
}

pub open spec fn status_named(t: Seq<char>) -> Option<SessionStatus> {
    if t == "active"@ {
        Some(SessionStatus::Active)
    } else if t == "interrupted"@ {
        Some(SessionStatus::Interrupted)
    } else if t == "closed"@ {
        Some(SessionStatus::Closed)
    } else {
        None
    }
}

pub open spec fn kind_named(t: Seq<char>) -> Option<EventKind> {
    if t == "user"@ {
        Some(EventKind::User)
    } else if t == "assistant"@ {
        Some(EventKind::Assistant)
    } else if t == "system"@ {
        Some(EventKind::System)
    } else if t == "tool-intent"@ {
        Some(EventKind::ToolIntent)
    } else if t == "error"@ {
        Some(EventKind::Error)
    } else if t == "interrupt"@ {
        Some(EventKind::Interrupt)
    } else {
        None
    }
}

/// Position of the first `|` at or after `from`, or the length.
pub open spec fn first_bar(s: Seq<char>, from: int) -> int
    decreases s.len() - from,
{
    if from < 0 || from >= s.len() {
        s.len() as int
    } else if s[from] == '|' {
        from
    } else {
        first_bar(s, from + 1)
    }
}

/// An event value `seq|kind|payload`, split at its first two `|`.
pub open spec fn event_of(v: Seq<char>) -> Result<(u32, EventKind, Seq<char>), Seq<char>> {
    let a = first_bar(v, 0);
    let b = first_bar(v, a + 1);
    if a >= v.len() || b >= v.len() {
        Err("event"@)
    } else {
        match parse_bounded(v.subrange(0, a), u32::MAX as nat) {
            None => Err("event seq"@),
            Some(n) => match kind_named(v.subrange(a + 1, b)) {
                None => Err("kind "@ + v.subrange(a + 1, b)),
                Some(k) => Ok((n as u32, k, log_unesc(v.subrange(b + 1, v.len() as int)))),
            },
        }
    }
}

/// The text of a line after its prefix.
pub open spec fn after(l: Seq<char>, prefix: Seq<char>) -> Seq<char> {
    l.subrange(prefix.len() as int, l.len() as int)
}

/// One more line read; lines are trimmed and empty ones skipped, and a
/// field given twice keeps its last value.
pub open spec fn load_line(st: LoadState, raw: Seq<char>) -> Result<LoadState, LoadFailure> {
    let l = repl_trim(raw);
    if l.len() == 0 {
        Ok(st)
    } else if has_prefix(l, "auralis_session="@) {
        match parse_bounded(after(l, "auralis_session="@), u32::MAX as nat) {
            None => Err(LoadFailure::Invalid("schema"@)),
            Some(v) => if v != SESSION_SCHEMA_VERSION {
                Err(LoadFailure::Schema(v as u32))
            } else {
                Ok(LoadState { schema: Some(v as u32), ..st })
            },
        }
    } else if has_prefix(l, "session_id="@) {
        Ok(LoadState { session_id: Some(log_unesc(after(l, "session_id="@))), ..st })
    } else if has_prefix(l, "generation="@) {
        match parse_bounded(after(l, "generation="@), u32::MAX as nat) {
            None => Err(LoadFailure::Invalid("generation"@)),
            Some(v) => Ok(LoadState { generation: Some(v as u32), ..st }),
        }
    } else if has_prefix(l, "status="@) {
        match status_named(after(l, "status="@)) {
            None => Err(LoadFailure::Invalid("status "@ + after(l, "status="@))),
            Some(v) => Ok(LoadState { status: Some(v), ..st }),
        }
    } else if has_prefix(l, "tools="@) {
        Ok(LoadState { tools: Some(after(l, "tools="@) == "1"@), ..st })
    } else if has_prefix(l, "planner="@) {
        Ok(LoadState { planner: Some(after(l, "planner="@) == "1"@), ..st })
    } else if has_prefix(l, "checkpoint="@) {
        Ok(LoadState { checkpoint: Some(log_unesc(after(l, "checkpoint="@))), ..st })
    } else if has_prefix(l, "event="@) {
        match event_of(after(l, "event="@)) {
            Err(m) => Err(LoadFailure::Invalid(m)),
            Ok(e) => Ok(LoadState { events: st.events.push(e), ..st }),
        }
    } else {
        Err(LoadFailure::Invalid("line "@ + l))
    }
}

/// The first `n` lines read, or the first refusal.
pub open spec fn load_lines(ls: Seq<Seq<char>>, n: nat) -> Result<LoadState, LoadFailure>
    decreases n,
{
    if n == 0 {
        Ok(no_lines_read())
    } else {
        match load_lines(ls, (n - 1) as nat) {
            Err(e) => Err(e),
            Ok(st) => if n <= ls.len() { load_line(st, ls[n - 1]) } else { Ok(st) },
        }
    }
}

/// The field a complete read still lacks, if any.
pub open spec fn missing_field(st: LoadState) -> Option<Seq<char>> {
    if st.session_id is None {
        Some("session_id"@)
    } else if st.schema is None {
        Some("schema"@)
    } else if st.generation is None {
        Some("generation"@)
    } else if st.status is None {
        Some("status"@)
    } else {
        None
    }
}

/// `s` is the session the read lines give: absent flags are off and an
/// absent checkpoint is `none`.
pub open spec fn session_from(s: Session, st: LoadState) -> bool {
    &&& st.session_id == Some(s.session_id@)
    &&& st.schema == Some(s.schema_version)
    &&& st.generation == Some(s.generation)
    &&& st.status == Some(s.status)
    &&& s.tools_enabled == (st.tools == Some(true))
    &&& s.planner_enabled == (st.planner == Some(true))
    &&& s.model_checkpoint@ == (match st.checkpoint { Some(c) => c, None => "none"@ })
    &&& s.events@.len() == st.events.len()
    &&& forall|i: int| 0 <= i < st.events.len() ==> #[trigger] st.events[i]
        == (s.events@[i].seq, s.events@[i].kind, s.events@[i].payload@)
}

pub open spec fn opt_text(o: Option<String>) -> Option<Seq<char>> {
    match o {
        Some(t) => Some(t@),
        None => None,
    }
}

pub open spec fn events_view(es: Seq<SessionEvent>) -> Seq<(u32, EventKind, Seq<char>)> {
    es.map_values(|e: SessionEvent| (e.seq, e.kind, e.payload@))
}

proof fn lemma_events_text_views(a: Seq<SessionEvent>, b: Seq<SessionEvent>, n: nat)
    requires
        n <= a.len(),
        a.len() == b.len(),
        forall|i: int| 0 <= i < a.len() ==> (#[trigger] a[i]).seq == b[i].seq && a[i].kind == b[i].kind
            && a[i].payload@ == b[i].payload@,
    ensures
        events_text(a, n) == events_text(b, n),
    decreases n,
{
    if n > 0 {
        lemma_events_text_views(a, b, (n - 1) as nat);
        assert(a[n - 1].seq == b[n - 1].seq);
    }
}

/// Once a line is refused, the read stays refused.
proof fn lemma_load_stays_failed(ls: Seq<Seq<char>>, k: nat, n: nat)
    requires
        k <= n,
        load_lines(ls, k) is Err,
    ensures
        load_lines(ls, n) == load_lines(ls, k),
    decreases n - k,
{
    if k < n {
        lemma_load_stays_failed(ls, k, (n - 1) as nat);
    }
}

/// Two sessions the same lines give have the same text.
proof fn lemma_session_text_from(s: Session, t: Session, st: LoadState)
    requires
        session_from(s, st),
        session_from(t, st),
    ensures
        session_text(s) == session_text(t),
{
    assert forall|i: int| 0 <= i < s.events@.len() implies (#[trigger] s.events@[i]).seq == t.events@[i].seq
        && s.events@[i].kind == t.events@[i].kind && s.events@[i].payload@ == t.events@[i].payload@ by {
        assert(st.events[i] == (s.events@[i].seq, s.events@[i].kind, s.events@[i].payload@));
        assert(st.events[i] == (t.events@[i].seq, t.events@[i].kind, t.events@[i].payload@));
    }
    lemma_events_text_views(s.events@, t.events@, s.events@.len());
}

impl Session {
    /// An active session with tools and planner off and no events.
    pub fn new(session_id: &str, model_checkpoint: &str) -> (s: Session)
        ensures
            s.session_id@ == session_id@,
            s.schema_version == SESSION_SCHEMA_VERSION,
            s.generation == 0,
            s.status == SessionStatus::Active,
            !s.tools_enabled && !s.planner_enabled,
            s.model_checkpoint@ == model_checkpoint@,
            s.events@.len() == 0,
    {
        Session {
            session_id: string_from(session_id),
            schema_version: SESSION_SCHEMA_VERSION,
            generation: 0,
            status: SessionStatus::Active,
            tools_enabled: false,
            planner_enabled: false,
            model_checkpoint: string_from(model_checkpoint),
            events: Vec::new(),
        }
    }

    /// Drops the history, starts the next generation and reactivates.
    pub fn reset(&mut self)
        ensures
            final(self).events@.len() == 0,
            final(self).generation == (if old(self).generation < u32::MAX { old(self).generation + 1 } else { old(self).generation as int }),
            final(self).status == SessionStatus::Active,
            final(self).session_id == old(self).session_id,
            final(self).schema_version == old(self).schema_version,
            final(self).model_checkpoint == old(self).model_checkpoint,
            final(self).tools_enabled == old(self).tools_enabled,
            final(self).planner_enabled == old(self).planner_enabled,
    {
        self.events = Vec::new();
        if self.generation < u32::MAX {
            self.generation = self.generation + 1;
        }
        self.status = SessionStatus::Active;
    }

    pub fn close(&mut self)
        ensures
            final(self).status == SessionStatus::Closed,
            same_header(*old(self), *final(self)),
            final(self).events == old(self).events,
    {
        self.status = SessionStatus::Closed;
    }

    /// Records an interrupt event and marks the session interrupted.
    pub fn interrupt(&mut self) -> (r: Result<(), SessionError>)
        ensures
            old(self).status == SessionStatus::Closed ==> r == Err::<(), SessionError>(SessionError::Closed) && *final(self) == *old(self),
            old(self).status != SessionStatus::Closed ==> r is Ok && final(self).status == SessionStatus::Interrupted
                && same_header(*old(self), *final(self))
                && final(self).events@.len() == old(self).events@.len() + 1
                && final(self).events@.drop_last() == old(self).events@
                && final(self).events@.last().kind == EventKind::Interrupt
                && final(self).events@.last().seq as int == old(self).events@.len() % 0x1_0000_0000
                && final(self).events@.last().payload@ == redact_spec("interrupt"@),
    {
        self.push(EventKind::Interrupt, "interrupt")?;
        self.status = SessionStatus::Interrupted;
        Ok(())
    }

    pub fn set_tools_enabled(&mut self, enabled: bool)
        ensures
            final(self).tools_enabled == enabled,
            final(self).planner_enabled == old(self).planner_enabled,
            final(self).status == old(self).status,
            final(self).events == old(self).events,
            final(self).generation == old(self).generation,
    {
        self.tools_enabled = enabled;
    }

    pub fn set_planner_enabled(&mut self, enabled: bool)
        ensures
            final(self).planner_enabled == enabled,
            final(self).tools_enabled == old(self).tools_enabled,
            final(self).status == old(self).status,
            final(self).events == old(self).events,
            final(self).generation == old(self).generation,
    {
        self.planner_enabled = enabled;
    }

    pub fn push_user(&mut self, text: &str) -> (r: Result<(), SessionError>)
        ensures
            old(self).status == SessionStatus::Closed ==> r == Err::<(), SessionError>(SessionError::Closed) && *final(self) == *old(self),
            old(self).status != SessionStatus::Closed ==> r is Ok && pushed(*old(self), *final(self), EventKind::User, text@),
    {
        self.push(EventKind::User, text)
    }

    pub fn push_assistant(&mut self, text: &str) -> (r: Result<(), SessionError>)
        ensures
            old(self).status == SessionStatus::Closed ==> r == Err::<(), SessionError>(SessionError::Closed) && *final(self) == *old(self),
            old(self).status != SessionStatus::Closed ==> r is Ok && pushed(*old(self), *final(self), EventKind::Assistant, text@),
    {
        self.push(EventKind::Assistant, text)
    }

    /// Records an error without dropping any earlier event.
    pub fn record_error(&mut self, detail: &str) -> (r: Result<(), SessionError>)
        ensures
            old(self).status == SessionStatus::Closed ==> r == Err::<(), SessionError>(SessionError::Closed) && *final(self) == *old(self),
            old(self).status != SessionStatus::Closed ==> r is Ok && pushed(*old(self), *final(self), EventKind::Error, detail@),
    {
        self.push(EventKind::Error, detail)
    }

    /// Records a tool intent; nothing is executed.
    pub fn record_tool_intent(&mut self, spec: &str) -> (r: Result<(), SessionError>)
        ensures
            old(self).status == SessionStatus::Closed ==> r == Err::<(), SessionError>(SessionError::Closed) && *final(self) == *old(self),
            old(self).status != SessionStatus::Closed ==> r is Ok && pushed(*old(self), *final(self), EventKind::ToolIntent,
                (if old(self).tools_enabled { "intent:"@ } else { "tools-disabled:"@ }) + spec@),
    {
        let payload = if self.tools_enabled { join2("intent:", spec) } else { join2("tools-disabled:", spec) };
        self.push(EventKind::ToolIntent, payload.as_str())
    }

    /// Records a plan intent; the planner is not invoked.
    pub fn record_plan_intent(&mut self, spec: &str) -> (r: Result<(), SessionError>)
        ensures
            old(self).status == SessionStatus::Closed ==> r == Err::<(), SessionError>(SessionError::Closed) && *final(self) == *old(self),
            old(self).status != SessionStatus::Closed ==> r is Ok && pushed(*old(self), *final(self), EventKind::System,
                (if old(self).planner_enabled { "plan:"@ } else { "planner-disabled:"@ }) + spec@),
    {
        let payload = if self.planner_enabled { join2("plan:", spec) } else { join2("planner-disabled:", spec) };
        self.push(EventKind::System, payload.as_str())
    }

    fn push(&mut self, kind: EventKind, payload: &str) -> (r: Result<(), SessionError>)
        ensures
            old(self).status == SessionStatus::Closed ==> r == Err::<(), SessionError>(SessionError::Closed) && *final(self) == *old(self),
            old(self).status != SessionStatus::Closed ==> r is Ok && pushed(*old(self), *final(self), kind, payload@),
    {
        match self.status {
            SessionStatus::Closed => {
                return Err(SessionError::Closed);
            },
            _ => {},
        }
        let seq = ((self.events.len() as u64) % 4294967296u64) as u32;
        self.events.push(SessionEvent { seq, kind, payload: redact(payload) });
        let reactivate = match (self.status, kind) {
            (SessionStatus::Interrupted, EventKind::Interrupt) => false,
            (SessionStatus::Interrupted, _) => true,
            _ => false,
        };
        if reactivate {
            self.status = SessionStatus::Active;
        }
        assert(self.events@.drop_last() =~= old(self).events@);
        Ok(())
    }

    /// The canonical text of the session.
    pub fn canonical(&self) -> (r: String)
        ensures
            r@ == session_text(*self),
    {
        let mut out = string_from("auralis_session=");
        push_u64(&mut out, self.schema_version as u64);
        push_str(&mut out, "\n");
        push_str(&mut out, "session_id=");
        push_str(&mut out, escape_log_text(self.session_id.as_str()).as_str());
        push_str(&mut out, "\n");
        push_str(&mut out, "generation=");
        push_u64(&mut out, self.generation as u64);
        push_str(&mut out, "\n");
        push_str(&mut out, "status=");
        push_str(&mut out, self.status.as_str());
        push_str(&mut out, "\n");
        push_str(&mut out, "tools=");
        push_str(&mut out, if self.tools_enabled { "1" } else { "0" });
        push_str(&mut out, "\n");
        push_str(&mut out, "planner=");
        push_str(&mut out, if self.planner_enabled { "1" } else { "0" });
        push_str(&mut out, "\n");
        push_str(&mut out, "checkpoint=");
        push_str(&mut out, escape_log_text(self.model_checkpoint.as_str()).as_str());
        push_str(&mut out, "\n");
        let ghost head = out@;
        let mut i: usize = 0;
        while i < self.events.len()
            invariant
                i <= self.events.len(),
                out@ == head + events_text(self.events@, i as nat),
            decreases self.events.len() - i,
        {
            let e = &self.events[i];
            let ghost before = out@;
            push_str(&mut out, "event=");
            push_u64(&mut out, e.seq as u64);
            push_str(&mut out, "|");
            push_str(&mut out, e.kind.as_str());
            push_str(&mut out, "|");
            push_str(&mut out, escape_log_text(e.payload.as_str()).as_str());
            push_str(&mut out, "\n");
            assert(out@ =~= before + event_text(*e));
            i = i + 1;
            assert(out@ =~= head + events_text(self.events@, i as nat));
        }
        assert(out@ =~= session_text(*self));
        out
    }

    /// Same as `canonical`.
    pub fn export(&self) -> (r: String)
        ensures
            r@ == session_text(*self),
    {
        self.canonical()
    }

    /// Reads a session from its text. Lines are trimmed and empty ones
    /// skipped; a schema other than this one, an unknown line, a malformed
    /// value, a missing id, schema, generation or status, and a text that
    /// still holds a secret marker are errors.
    pub fn load(blob: &str) -> (r: Result<Session, SessionError>)
        ensures
            match load_lines(lines_of(blob@), lines_of(blob@).len()) {
                Err(LoadFailure::Schema(v)) => r == Err::<Session, SessionError>(SessionError::IncompatibleSchema(v)),
                Err(LoadFailure::Invalid(m)) => r matches Err(SessionError::Invalid(x)) && x@ == m,
                Ok(st) => match missing_field(st) {
                    Some(m) => r matches Err(SessionError::Invalid(x)) && x@ == m,
                    None => {
                        ||| r matches Ok(s) && session_from(s, st) && secret_free(session_text(s))
                        ||| r matches Err(SessionError::Invalid(x)) && x@ == "unredacted secret"@
                            && forall|s: Session| #[trigger] session_from(s, st) ==> !secret_free(session_text(s))
                    },
                },
            },
    {
        let lines = split_lines(blob);
        let ghost ls = lines_of(blob@);
        let mut schema: Option<u32> = None;
        let mut session_id: Option<String> = None;
        let mut generation: Option<u32> = None;
        let mut status: Option<SessionStatus> = None;
        let mut tools: Option<bool> = None;
        let mut planner: Option<bool> = None;
        let mut checkpoint: Option<String> = None;
        let mut events: Vec<SessionEvent> = Vec::new();
        let mut k: usize = 0;
        assert(load_lines(ls, 0) == Ok::<LoadState, LoadFailure>(no_lines_read()));
        assert(events_view(events@) =~= Seq::<(u32, EventKind, Seq<char>)>::empty());
        while k < lines.len()
            invariant
                k <= lines.len(),
                ls == lines_of(blob@),
                strings_view(lines@) == ls,
                lines@.len() == ls.len(),
                load_lines(ls, k as nat) == Ok::<LoadState, LoadFailure>(LoadState {
                    schema,
                    session_id: opt_text(session_id),
                    generation,
                    status,
                    tools,
                    planner,
                    checkpoint: opt_text(checkpoint),
                    events: events_view(events@),
                }),
            decreases lines.len() - k,
        {
            let ghost st = LoadState {
                schema,
                session_id: opt_text(session_id),
                generation,
                status,
                tools,
                planner,
                checkpoint: opt_text(checkpoint),
                events: events_view(events@),
            };
            assert(strings_view(lines@)[k as int] == lines@[k as int]@);
            let line = trim_text(lines[k].as_str());
            let l = line.as_str();
            proof {
                reveal_strlit("1");
            }
            if line.unicode_len() == 0 {
                k = k + 1;
                continue;
            }
            if starts_with(l, "auralis_session=") {
                let v = match value_number(l, "auralis_session=", 4294967295u64) {
                    Some(v) => v as u32,
                    None => {
                        proof { lemma_load_stays_failed(ls, k as nat + 1, ls.len()); }
                        return Err(SessionError::Invalid(string_from("schema")));
                    },
                };
                if v != SESSION_SCHEMA_VERSION {
                    proof { lemma_load_stays_failed(ls, k as nat + 1, ls.len()); }
                    return Err(SessionError::IncompatibleSchema(v));
                }
                schema = Some(v);
            } else if starts_with(l, "session_id=") {
                session_id = Some(unescape_log_text(&value_after(l, "session_id=")));
            } else if starts_with(l, "generation=") {
                match value_number(l, "generation=", 4294967295u64) {
                    Some(v) => {
                        generation = Some(v as u32);
                    },
                    None => {
                        proof { lemma_load_stays_failed(ls, k as nat + 1, ls.len()); }
                        return Err(SessionError::Invalid(string_from("generation")));
                    },
                }
            } else if starts_with(l, "status=") {
                let v = value_after(l, "status=");
                match SessionStatus::parse(v.as_str()) {
                    Ok(x) => {
                        status = Some(x);
                    },
                    Err(e) => {
                        proof { lemma_load_stays_failed(ls, k as nat + 1, ls.len()); }
                        return Err(e);
                    },
                }
            } else if starts_with(l, "tools=") {
                tools = Some(same_text(value_after(l, "tools=").as_str(), "1"));
            } else if starts_with(l, "planner=") {
                planner = Some(same_text(value_after(l, "planner=").as_str(), "1"));
            } else if starts_with(l, "checkpoint=") {
                checkpoint = Some(unescape_log_text(&value_after(l, "checkpoint=")));
            } else if starts_with(l, "event=") {
                let e = match parse_event(&value_after(l, "event=")) {
                    Ok(e) => e,
                    Err(e) => {
                        proof { lemma_load_stays_failed(ls, k as nat + 1, ls.len()); }
                        return Err(e);
                    },
                };
                let ghost before = events@;
                events.push(e);
                assert(events_view(events@) =~= events_view(before).push((e.seq, e.kind, e.payload@)));
            } else {
                proof { lemma_load_stays_failed(ls, k as nat + 1, ls.len()); }
                return Err(SessionError::Invalid(join2("line ", l)));
            }
            k = k + 1;
        }
        let ghost st = LoadState {
            schema,
            session_id: opt_text(session_id),
            generation,
            status,
            tools,
            planner,
            checkpoint: opt_text(checkpoint),
            events: events_view(events@),
        };
        let session = Session {
            session_id: match session_id {
                Some(v) => v,
                None => {
                    return Err(SessionError::Invalid(string_from("session_id")));
                },
            },
            schema_version: match schema {
                Some(v) => v,
                None => {
                    return Err(SessionError::Invalid(string_from("schema")));
                },
            },
            generation: match generation {
                Some(v) => v,
                None => {
                    return Err(SessionError::Invalid(string_from("generation")));
                },
            },
            status: match status {
                Some(v) => v,
                None => {
                    return Err(SessionError::Invalid(string_from("status")));
                },
            },
            tools_enabled: match tools {
                Some(v) => v,
                None => false,
            },
            planner_enabled: match planner {
                Some(v) => v,
                None => false,
            },
            model_checkpoint: match checkpoint {
                Some(v) => v,
                None => string_from("none"),
            },
            events,
        };
        assert(session_from(session, st));
        let text = session.canonical();
        if contains(text.as_str(), "SECRET") || contains(text.as_str(), "sk-live-") || contains(text.as_str(), "password=") {
            assert forall|s: Session| #[trigger] session_from(s, st) implies !secret_free(session_text(s)) by {
                lemma_session_text_from(s, session, st);
            }
            return Err(SessionError::Invalid(string_from("unredacted secret")));
        }
        Ok(session)
    }
}

/// A text without its leading and trailing white space (`str::trim`).
pub fn trim_text(s: &str) -> (r: String)
    ensures
        r@ == repl_trim(s@),
{
    let raw = chars_of(s);
    let (from, to) = trim_bounds(&raw);
    proof {
        lemma_trim_spec(s@, raw@, from as int, to as int);
    }
    string_of(&raw, from, to)
}

/// Bounds of `cs` without leading and trailing white space (`str::trim`).
fn trim_bounds(cs: &Vec<char>) -> (r: (usize, usize))
    ensures
        r.0 <= r.1 <= cs.len(),
        forall|j: int| 0 <= j < r.0 ==> is_ws(cs@[j]),
        forall|j: int| r.1 <= j < cs.len() ==> is_ws(cs@[j]),
        r.0 < cs.len() ==> !is_ws(cs@[r.0 as int]),
        r.1 > r.0 ==> !is_ws(cs@[r.1 - 1]),
        r.0 == cs.len() || r.0 < r.1,
{
    let mut from: usize = 0;
    while from < cs.len() && crate::planner::is_ws_char(cs[from])
        invariant
            from <= cs.len(),
            forall|j: int| 0 <= j < from ==> is_ws(cs@[j]),
        decreases cs.len() - from,
    {
        from = from + 1;
    }
    let mut to = cs.len();
    while to > from && crate::planner::is_ws_char(cs[to - 1])
        invariant
            from <= to <= cs.len(),
            forall|j: int| to <= j < cs.len() ==> is_ws(cs@[j]),
            from < cs.len() ==> !is_ws(cs@[from as int]),
        decreases to - from,
    {
        to = to - 1;
    }
    (from, to)
}

/// The text after `prefix` (which the line starts with).
fn value_after(line: &str, prefix: &str) -> (r: String)
    requires
        has_prefix(line@, prefix@),
    ensures
        r@ == line@.subrange(prefix@.len() as int, line@.len() as int),
{
    let cs = chars_of(line);
    let n = prefix.unicode_len();
    string_of(&cs, n, cs.len())
}

/// The unsigned number after `prefix`, at most `max`.
fn value_number(line: &str, prefix: &str, max: u64) -> (r: Option<u64>)
    requires
        has_prefix(line@, prefix@),
    ensures
        r == (match parse_bounded(after(line@, prefix@), max as nat) {
            Some(v) => Some(v as u64),
            None => None::<u64>,
        }),
{
    let cs = chars_of(line);
    let n = prefix.unicode_len();
    parse_unsigned_in(&cs, n, cs.len(), max)
}

/// Undoes `log_esc`: `\\`, `\|`, `\n` and `\r` are decoded; any other
/// backslash stays.
pub open spec fn log_unesc(s: Seq<char>) -> Seq<char>
    decreases s.len(),
{
    if s.len() == 0 {
        Seq::empty()
    } else if s[0] == '\\' {
        if s.len() == 1 {
            seq!['\\']
        } else {
            let c = s[1];
            (if c == '\\' {
                seq!['\\']
            } else if c == '|' {
                seq!['|']
            } else if c == 'n' {
                seq!['\n']
            } else if c == 'r' {
                seq!['\r']
            } else {
                seq!['\\', c]
            }) + log_unesc(s.subrange(2, s.len() as int))
        }
    } else {
        seq![s[0]] + log_unesc(s.drop_first())
    }
}

pub fn unescape_log_text(s: &String) -> (r: String)
    ensures
        r@ == log_unesc(s@),
{
    let cs = chars_of(s.as_str());
    let mut out = String::new();
    let mut i: usize = 0;
    assert(cs@.subrange(0, cs.len() as int) =~= s@);
    while i < cs.len()
        invariant
            cs@ == s@,
            i <= cs.len(),
            log_unesc(s@) == out@ + log_unesc(cs@.subrange(i as int, cs.len() as int)),
        decreases cs.len() - i,
    {
        let ghost rest = cs@.subrange(i as int, cs.len() as int);
        if cs[i] == '\\' {
            if i + 1 == cs.len() {
                push_char(&mut out, '\\');
                i = i + 1;
                assert(cs@.subrange(i as int, cs.len() as int) =~= Seq::<char>::empty());
            } else {
                let c = cs[i + 1];
                if c == '\\' {
                    push_char(&mut out, '\\');
                } else if c == '|' {
                    push_char(&mut out, '|');
                } else if c == 'n' {
                    push_char(&mut out, '\n');
                } else if c == 'r' {
                    push_char(&mut out, '\r');
                } else {
                    push_char(&mut out, '\\');
                    push_char(&mut out, c);
                }
                assert(rest.subrange(2, rest.len() as int) =~= cs@.subrange(i + 2, cs.len() as int));
                i = i + 2;
            }
        } else {
            push_char(&mut out, cs[i]);
            assert(rest.drop_first() =~= cs@.subrange(i + 1, cs.len() as int));
            i = i + 1;
        }
        assert(log_unesc(s@) =~= out@ + log_unesc(cs@.subrange(i as int, cs.len() as int)));
    }
    assert(cs@.subrange(i as int, cs.len() as int) =~= Seq::<char>::empty());
    assert(out@ + Seq::<char>::empty() =~= out@);
    out
}

/// `seq|kind|payload`, split at the first two `|`.
fn parse_event(value: &String) -> (r: Result<SessionEvent, SessionError>)
    ensures
        match event_of(value@) {
            Ok(e) => r matches Ok(x) && (x.seq, x.kind, x.payload@) == e,
            Err(m) => r matches Err(SessionError::Invalid(x)) && x@ == m,
        },
{
    let cs = chars_of(value.as_str());
    let mut a: usize = 0;
    while a < cs.len() && cs[a] != '|'
        invariant
            a <= cs.len(),
            cs@ == value@,
            first_bar(cs@, 0) == first_bar(cs@, a as int),
        decreases cs.len() - a,
    {
        a = a + 1;
    }
    if a == cs.len() {
        return Err(SessionError::Invalid(string_from("event")));
    }
    let mut b: usize = a + 1;
    while b < cs.len() && cs[b] != '|'
        invariant
            a < b <= cs.len(),
            cs@ == value@,
            first_bar(cs@, a + 1) == first_bar(cs@, b as int),
        decreases cs.len() - b,
    {
        b = b + 1;
    }
    if b == cs.len() {
        return Err(SessionError::Invalid(string_from("event")));
    }
    let seq = match parse_unsigned_in(&cs, 0, a, 4294967295u64) {
        Some(v) => v as u32,
        None => {
            return Err(SessionError::Invalid(string_from("event seq")));
        },
    };
    let kind_text = string_of(&cs, a + 1, b);
    let kind = EventKind::parse(kind_text.as_str())?;
    let payload = string_of(&cs, b + 1, cs.len());
    Ok(SessionEvent { seq, kind, payload: unescape_log_text(&payload) })
}

#[derive(Clone, Debug, PartialEq, Eq)]
pub enum ReplOutcome {
    Reply(String),
    Exported(String),
    Loaded { session_id: String, events: usize },
    Exit,
}

pub struct SessionRepl {
    pub session: Session,
}

impl SessionRepl {
    pub fn new(session_id: &str, checkpoint: &str) -> (r: SessionRepl)
        ensures
            r.session.session_id@ == session_id@,
            r.session.model_checkpoint@ == checkpoint@,
            r.session.status == SessionStatus::Active,
            !r.session.tools_enabled && !r.session.planner_enabled,
            r.session.events@.len() == 0,
    {
        SessionRepl { session: Session::new(session_id, checkpoint) }
    }

    /// One line of the REPL: `/exit` (or `/salir`), `/reset`, `/export`
    /// (or `/save`), `/load <blob>`, `/interrupt`, `/tools on|off`,
    /// `/planner on|off`, `/tool <spec>`, `/plan <spec>`, or text, which is
    /// recorded with an acknowledgement.
    pub fn handle(&mut self, line: &str) -> (r: Result<ReplOutcome, SessionError>)
        ensures
            repl_trim(line@) == "/exit"@ || repl_trim(line@) == "/salir"@ ==> r == Ok::<ReplOutcome, SessionError>(ReplOutcome::Exit)
                && final(self).session.status == SessionStatus::Closed,
            repl_trim(line@) == "/tools on"@ ==> final(self).session.tools_enabled && (r matches Ok(ReplOutcome::Reply(t)) && t@ == "tools=on"@),
            repl_trim(line@) == "/tools off"@ ==> !final(self).session.tools_enabled && (r matches Ok(ReplOutcome::Reply(t)) && t@ == "tools=off"@),
            repl_trim(line@) == "/planner on"@ ==> final(self).session.planner_enabled && (r matches Ok(ReplOutcome::Reply(t)) && t@ == "planner=on"@),
            repl_trim(line@) == "/planner off"@ ==> !final(self).session.planner_enabled && (r matches Ok(ReplOutcome::Reply(t)) && t@ == "planner=off"@),
            repl_trim(line@) == "/export"@ || repl_trim(line@) == "/save"@ ==>
                (r matches Ok(ReplOutcome::Exported(t)) && t@ == session_text(old(self).session)) && final(self).session == old(self).session,
            r is Err ==> final(self).session == old(self).session,
            final(self).session.tools_enabled != old(self).session.tools_enabled ==>
                repl_trim(line@) == "/tools on"@ || repl_trim(line@) == "/tools off"@ || has_prefix(repl_trim(line@), "/load "@),
            final(self).session.planner_enabled != old(self).session.planner_enabled ==>
                repl_trim(line@) == "/planner on"@ || repl_trim(line@) == "/planner off"@ || has_prefix(repl_trim(line@), "/load "@),
            !repl_command(repl_trim(line@)) ==> repl_chat(old(self).session, final(self).session, repl_trim(line@), r),
            repl_trim(line@) == "/interrupt"@ ==> (if old(self).session.status == SessionStatus::Closed {
                r == Err::<ReplOutcome, SessionError>(SessionError::Closed)
            } else {
                &&& r matches Ok(ReplOutcome::Reply(x)) && x@ == "interrupted"@
                &&& final(self).session.status == SessionStatus::Interrupted
                &&& same_header(old(self).session, final(self).session)
                &&& final(self).session.events@.drop_last() == old(self).session.events@
                &&& final(self).session.events@.len() == old(self).session.events@.len() + 1
                &&& final(self).session.events@.last().kind == EventKind::Interrupt
                &&& final(self).session.events@.last().payload@ == redact_spec("interrupt"@)
            }),
            repl_trim(line@) == "/reset"@ ==> {
                &&& final(self).session.events@.len() == 0
                &&& final(self).session.status == SessionStatus::Active
                &&& final(self).session.generation == (if old(self).session.generation < u32::MAX {
                    old(self).session.generation + 1 } else { old(self).session.generation as int })
                &&& r matches Ok(ReplOutcome::Reply(x)) && x@ == "reset generation="@ + dec(final(self).session.generation as nat)
                    + " checkpoint="@ + old(self).session.model_checkpoint@
            },
            has_prefix(repl_trim(line@), "/tool "@) ==> (if old(self).session.status == SessionStatus::Closed {
                r == Err::<ReplOutcome, SessionError>(SessionError::Closed)
            } else {
                &&& pushed(old(self).session, final(self).session, EventKind::ToolIntent,
                    (if old(self).session.tools_enabled { "intent:"@ } else { "tools-disabled:"@ })
                    + repl_trim(line@).subrange(6, repl_trim(line@).len() as int))
                &&& r matches Ok(ReplOutcome::Reply(x)) && x@ == (if old(self).session.tools_enabled {
                    "intent recorded; not executed"@ } else { "tools-disabled"@ })
            }),
            has_prefix(repl_trim(line@), "/plan "@) ==> (if old(self).session.status == SessionStatus::Closed {
                r == Err::<ReplOutcome, SessionError>(SessionError::Closed)
            } else {
                &&& pushed(old(self).session, final(self).session, EventKind::System,
                    (if old(self).session.planner_enabled { "plan:"@ } else { "planner-disabled:"@ })
                    + repl_trim(line@).subrange(6, repl_trim(line@).len() as int))
                &&& r matches Ok(ReplOutcome::Reply(x)) && x@ == (if old(self).session.planner_enabled {
                    "plan intent recorded; planner not invoked"@ } else { "planner-disabled"@ })
            }),
            has_prefix(repl_trim(line@), "/load "@) ==> {
                let blob = repl_trim(line@).subrange(6, repl_trim(line@).len() as int);
                &&& r is Ok ==> loaded_as(blob, final(self).session)
                    && (r matches Ok(ReplOutcome::Loaded { session_id, events })
                        && session_id@ == final(self).session.session_id@ && events == final(self).session.events@.len())
                &&& !(exists|s: Session| #[trigger] loaded_as(blob, s)) ==> r is Err
            },
    {
        let raw = chars_of(line);
        let (from, to) = trim_bounds(&raw);
        let trimmed_string = string_of(&raw, from, to);
        let t = trimmed_string.as_str();
        proof {
            lemma_trim_spec(line@, raw@, from as int, to as int);
            reveal_strlit("/salir");
            reveal_strlit("/exit");
            reveal_strlit("/reset");
            reveal_strlit("/export");
            reveal_strlit("/save");
            reveal_strlit("/load ");
            reveal_strlit("/interrupt");
            reveal_strlit("/tools on");
            reveal_strlit("/tools off");
            reveal_strlit("/planner on");
            reveal_strlit("/planner off");
            reveal_strlit("/tool ");
            reveal_strlit("/plan ");
            lemma_commands_distinct();
            lemma_command_prefixes(t@);
            assert(t@ == repl_trim(line@));
        }
        if same_text(t, "/salir") || same_text(t, "/exit") {
            assert(t@ != "/tools on"@ && t@ != "/tools off"@ && t@ != "/planner on"@ && t@ != "/planner off"@);
            self.session.close();
            return Ok(ReplOutcome::Exit);
        }
        if same_text(t, "/reset") {
            let checkpoint = self.session.model_checkpoint.clone();
            self.session.reset();
            let mut reply = string_from("reset generation=");
            push_u64(&mut reply, self.session.generation as u64);
            push_str(&mut reply, " checkpoint=");
            push_str(&mut reply, checkpoint.as_str());
            return Ok(ReplOutcome::Reply(reply));
        }
        if same_text(t, "/export") || same_text(t, "/save") {
            return Ok(ReplOutcome::Exported(self.session.export()));
        }
        if starts_with(t, "/load ") {
            let blob = value_after(t, "/load ");
            let loaded = Session::load(blob.as_str())?;
            proof {
                let ls = lines_of(blob@);
                match load_lines(ls, ls.len()) {
                    Ok(st) => {
                        if missing_field(st) is None {
                            assert(loaded_as(blob@, loaded));
                        }
                    },
                    Err(_) => {},
                }
            }
            self.session = loaded;
            return Ok(ReplOutcome::Loaded {
                session_id: self.session.session_id.clone(),
                events: self.session.events.len(),
            });
        }
        if same_text(t, "/interrupt") {
            self.session.interrupt()?;
            return Ok(ReplOutcome::Reply(string_from("interrupted")));
        }
        if same_text(t, "/tools on") {
            self.session.set_tools_enabled(true);
            return Ok(ReplOutcome::Reply(string_from("tools=on")));
        }
        if same_text(t, "/tools off") {
            self.session.set_tools_enabled(false);
            return Ok(ReplOutcome::Reply(string_from("tools=off")));
        }
        if same_text(t, "/planner on") {
            self.session.set_planner_enabled(true);
            return Ok(ReplOutcome::Reply(string_from("planner=on")));
        }
        if same_text(t, "/planner off") {
            self.session.set_planner_enabled(false);
            return Ok(ReplOutcome::Reply(string_from("planner=off")));
        }
        if starts_with(t, "/tool ") {
            let spec = value_after(t, "/tool ");
            self.session.record_tool_intent(spec.as_str())?;
            let note = if self.session.tools_enabled { "intent recorded; not executed" } else { "tools-disabled" };
            return Ok(ReplOutcome::Reply(string_from(note)));
        }
        if starts_with(t, "/plan ") {
            let spec = value_after(t, "/plan ");
            self.session.record_plan_intent(spec.as_str())?;
            let note = if self.session.planner_enabled { "plan intent recorded; planner not invoked" } else { "planner-disabled" };
            return Ok(ReplOutcome::Reply(string_from(note)));
        }
        assert(t@ != "/tools on"@ && t@ != "/tools off"@ && t@ != "/planner on"@ && t@ != "/planner off"@);
        let ghost before = self.session;
        self.session.push_user(t)?;
        let ghost mid = self.session;
        let mut reply = string_from("ack:");
        push_u64(&mut reply, self.session.events.len() as u64);
        self.session.push_assistant(reply.as_str())?;
        assert(pushed(before, mid, EventKind::User, t@));
        Ok(ReplOutcome::Reply(reply))
    }
}

/// No command word starts like a command that takes an argument, and the
/// argument-taking commands exclude one another.
proof fn lemma_command_prefixes(t: Seq<char>)
    ensures
        !has_prefix("/exit"@, "/load "@),
        !has_prefix("/exit"@, "/tool "@),
        !has_prefix("/exit"@, "/plan "@),
        !has_prefix("/salir"@, "/load "@),
        !has_prefix("/salir"@, "/tool "@),
        !has_prefix("/salir"@, "/plan "@),
        !has_prefix("/reset"@, "/load "@),
        !has_prefix("/reset"@, "/tool "@),
        !has_prefix("/reset"@, "/plan "@),
        !has_prefix("/export"@, "/load "@),
        !has_prefix("/export"@, "/tool "@),
        !has_prefix("/export"@, "/plan "@),
        !has_prefix("/save"@, "/load "@),
        !has_prefix("/save"@, "/tool "@),
        !has_prefix("/save"@, "/plan "@),
        !has_prefix("/interrupt"@, "/load "@),
        !has_prefix("/interrupt"@, "/tool "@),
        !has_prefix("/interrupt"@, "/plan "@),
        !has_prefix("/tools on"@, "/load "@),
        !has_prefix("/tools on"@, "/tool "@),
        !has_prefix("/tools on"@, "/plan "@),
        !has_prefix("/tools off"@, "/load "@),
        !has_prefix("/tools off"@, "/tool "@),
        !has_prefix("/tools off"@, "/plan "@),
        !has_prefix("/planner on"@, "/load "@),
        !has_prefix("/planner on"@, "/tool "@),
        !has_prefix("/planner on"@, "/plan "@),
        !has_prefix("/planner off"@, "/load "@),
        !has_prefix("/planner off"@, "/tool "@),
        !has_prefix("/planner off"@, "/plan "@),
        has_prefix(t, "/load "@) ==> !has_prefix(t, "/tool "@) && !has_prefix(t, "/plan "@),
        has_prefix(t, "/tool "@) ==> !has_prefix(t, "/plan "@),
{
    reveal_strlit("/exit");
    reveal_strlit("/salir");
    reveal_strlit("/reset");
    reveal_strlit("/export");
    reveal_strlit("/save");
    reveal_strlit("/interrupt");
    reveal_strlit("/tools on");
    reveal_strlit("/tools off");
    reveal_strlit("/planner on");
    reveal_strlit("/planner off");
    reveal_strlit("/load ");
    reveal_strlit("/tool ");
    reveal_strlit("/plan ");
    if has_prefix("/exit"@, "/load "@) { assert("/exit"@.subrange(0, 6)[5] == "/load "@[5]); assert("/exit"@.subrange(0, 6)[1] == "/load "@[1]); }
    if has_prefix("/exit"@, "/tool "@) { assert("/exit"@.subrange(0, 6)[5] == "/tool "@[5]); assert("/exit"@.subrange(0, 6)[1] == "/tool "@[1]); }
    if has_prefix("/exit"@, "/plan "@) { assert("/exit"@.subrange(0, 6)[5] == "/plan "@[5]); assert("/exit"@.subrange(0, 6)[1] == "/plan "@[1]); }
    if has_prefix("/salir"@, "/load "@) { assert("/salir"@.subrange(0, 6)[5] == "/load "@[5]); assert("/salir"@.subrange(0, 6)[1] == "/load "@[1]); }
    if has_prefix("/salir"@, "/tool "@) { assert("/salir"@.subrange(0, 6)[5] == "/tool "@[5]); assert("/salir"@.subrange(0, 6)[1] == "/tool "@[1]); }
    if has_prefix("/salir"@, "/plan "@) { assert("/salir"@.subrange(0, 6)[5] == "/plan "@[5]); assert("/salir"@.subrange(0, 6)[1] == "/plan "@[1]); }
    if has_prefix("/reset"@, "/load "@) { assert("/reset"@.subrange(0, 6)[5] == "/load "@[5]); assert("/reset"@.subrange(0, 6)[1] == "/load "@[1]); }
    if has_prefix("/reset"@, "/tool "@) { assert("/reset"@.subrange(0, 6)[5] == "/tool "@[5]); assert("/reset"@.subrange(0, 6)[1] == "/tool "@[1]); }
    if has_prefix("/reset"@, "/plan "@) { assert("/reset"@.subrange(0, 6)[5] == "/plan "@[5]); assert("/reset"@.subrange(0, 6)[1] == "/plan "@[1]); }
    if has_prefix("/export"@, "/load "@) { assert("/export"@.subrange(0, 6)[5] == "/load "@[5]); assert("/export"@.subrange(0, 6)[1] == "/load "@[1]); }
    if has_prefix("/export"@, "/tool "@) { assert("/export"@.subrange(0, 6)[5] == "/tool "@[5]); assert("/export"@.subrange(0, 6)[1] == "/tool "@[1]); }
    if has_prefix("/export"@, "/plan "@) { assert("/export"@.subrange(0, 6)[5] == "/plan "@[5]); assert("/export"@.subrange(0, 6)[1] == "/plan "@[1]); }
    if has_prefix("/save"@, "/load "@) { assert("/save"@.subrange(0, 6)[5] == "/load "@[5]); assert("/save"@.subrange(0, 6)[1] == "/load "@[1]); }
    if has_prefix("/save"@, "/tool "@) { assert("/save"@.subrange(0, 6)[5] == "/tool "@[5]); assert("/save"@.subrange(0, 6)[1] == "/tool "@[1]); }
    if has_prefix("/save"@, "/plan "@) { assert("/save"@.subrange(0, 6)[5] == "/plan "@[5]); assert("/save"@.subrange(0, 6)[1] == "/plan "@[1]); }
    if has_prefix("/interrupt"@, "/load "@) { assert("/interrupt"@.subrange(0, 6)[5] == "/load "@[5]); assert("/interrupt"@.subrange(0, 6)[1] == "/load "@[1]); }
    if has_prefix("/interrupt"@, "/tool "@) { assert("/interrupt"@.subrange(0, 6)[5] == "/tool "@[5]); assert("/interrupt"@.subrange(0, 6)[1] == "/tool "@[1]); }
    if has_prefix("/interrupt"@, "/plan "@) { assert("/interrupt"@.subrange(0, 6)[5] == "/plan "@[5]); assert("/interrupt"@.subrange(0, 6)[1] == "/plan "@[1]); }
    if has_prefix("/tools on"@, "/load "@) { assert("/tools on"@.subrange(0, 6)[5] == "/load "@[5]); assert("/tools on"@.subrange(0, 6)[1] == "/load "@[1]); }
    if has_prefix("/tools on"@, "/tool "@) { assert("/tools on"@.subrange(0, 6)[5] == "/tool "@[5]); assert("/tools on"@.subrange(0, 6)[1] == "/tool "@[1]); }
    if has_prefix("/tools on"@, "/plan "@) { assert("/tools on"@.subrange(0, 6)[5] == "/plan "@[5]); assert("/tools on"@.subrange(0, 6)[1] == "/plan "@[1]); }
    if has_prefix("/tools off"@, "/load "@) { assert("/tools off"@.subrange(0, 6)[5] == "/load "@[5]); assert("/tools off"@.subrange(0, 6)[1] == "/load "@[1]); }
    if has_prefix("/tools off"@, "/tool "@) { assert("/tools off"@.subrange(0, 6)[5] == "/tool "@[5]); assert("/tools off"@.subrange(0, 6)[1] == "/tool "@[1]); }
    if has_prefix("/tools off"@, "/plan "@) { assert("/tools off"@.subrange(0, 6)[5] == "/plan "@[5]); assert("/tools off"@.subrange(0, 6)[1] == "/plan "@[1]); }
    if has_prefix("/planner on"@, "/load "@) { assert("/planner on"@.subrange(0, 6)[5] == "/load "@[5]); assert("/planner on"@.subrange(0, 6)[1] == "/load "@[1]); }
    if has_prefix("/planner on"@, "/tool "@) { assert("/planner on"@.subrange(0, 6)[5] == "/tool "@[5]); assert("/planner on"@.subrange(0, 6)[1] == "/tool "@[1]); }
    if has_prefix("/planner on"@, "/plan "@) { assert("/planner on"@.subrange(0, 6)[5] == "/plan "@[5]); assert("/planner on"@.subrange(0, 6)[1] == "/plan "@[1]); }
    if has_prefix("/planner off"@, "/load "@) { assert("/planner off"@.subrange(0, 6)[5] == "/load "@[5]); assert("/planner off"@.subrange(0, 6)[1] == "/load "@[1]); }
    if has_prefix("/planner off"@, "/tool "@) { assert("/planner off"@.subrange(0, 6)[5] == "/tool "@[5]); assert("/planner off"@.subrange(0, 6)[1] == "/tool "@[1]); }
    if has_prefix("/planner off"@, "/plan "@) { assert("/planner off"@.subrange(0, 6)[5] == "/plan "@[5]); assert("/planner off"@.subrange(0, 6)[1] == "/plan "@[1]); }
    if has_prefix(t, "/load "@) && has_prefix(t, "/tool "@) { assert(t.subrange(0, 6)[1] == "/load "@[1]); assert(t.subrange(0, 6)[1] == "/tool "@[1]); }
    if has_prefix(t, "/load "@) && has_prefix(t, "/plan "@) { assert(t.subrange(0, 6)[1] == "/load "@[1]); assert(t.subrange(0, 6)[1] == "/plan "@[1]); }
    if has_prefix(t, "/tool "@) && has_prefix(t, "/plan "@) { assert(t.subrange(0, 6)[1] == "/tool "@[1]); assert(t.subrange(0, 6)[1] == "/plan "@[1]); }
}

proof fn lemma_commands_distinct()
    ensures
        "/exit"@ != "/salir"@,
        "/exit"@ != "/tools on"@,
        "/exit"@ != "/tools off"@,
        "/exit"@ != "/planner on"@,
        "/exit"@ != "/planner off"@,
        "/exit"@ != "/export"@,
        "/exit"@ != "/save"@,
        "/salir"@ != "/tools on"@,
        "/salir"@ != "/tools off"@,
        "/salir"@ != "/planner on"@,
        "/salir"@ != "/planner off"@,
        "/salir"@ != "/export"@,
        "/salir"@ != "/save"@,
        "/tools on"@ != "/tools off"@,
        "/tools on"@ != "/planner on"@,
        "/tools on"@ != "/planner off"@,
        "/tools on"@ != "/export"@,
        "/tools on"@ != "/save"@,
        "/tools off"@ != "/planner on"@,
        "/tools off"@ != "/planner off"@,
        "/tools off"@ != "/export"@,
        "/tools off"@ != "/save"@,
        "/planner on"@ != "/planner off"@,
        "/planner on"@ != "/export"@,
        "/planner on"@ != "/save"@,
        "/planner off"@ != "/export"@,
        "/planner off"@ != "/save"@,
        "/export"@ != "/save"@,
        !has_prefix("/exit"@, "/load "@),
        !has_prefix("/exit"@, "/tool "@),
        !has_prefix("/exit"@, "/plan "@),
        "/exit"@ != "/reset"@ && "/exit"@ != "/interrupt"@,
        !has_prefix("/salir"@, "/load "@),
        !has_prefix("/salir"@, "/tool "@),
        !has_prefix("/salir"@, "/plan "@),
        "/salir"@ != "/reset"@ && "/salir"@ != "/interrupt"@,
        !has_prefix("/tools on"@, "/load "@),
        !has_prefix("/tools on"@, "/tool "@),
        !has_prefix("/tools on"@, "/plan "@),
        "/tools on"@ != "/reset"@ && "/tools on"@ != "/interrupt"@,
        !has_prefix("/tools off"@, "/load "@),
        !has_prefix("/tools off"@, "/tool "@),
        !has_prefix("/tools off"@, "/plan "@),
        "/tools off"@ != "/reset"@ && "/tools off"@ != "/interrupt"@,
        !has_prefix("/planner on"@, "/load "@),
        !has_prefix("/planner on"@, "/tool "@),
        !has_prefix("/planner on"@, "/plan "@),
        "/planner on"@ != "/reset"@ && "/planner on"@ != "/interrupt"@,
        !has_prefix("/planner off"@, "/load "@),
        !has_prefix("/planner off"@, "/tool "@),
        !has_prefix("/planner off"@, "/plan "@),
        "/planner off"@ != "/reset"@ && "/planner off"@ != "/interrupt"@,
        !has_prefix("/export"@, "/load "@),
        !has_prefix("/export"@, "/tool "@),
        !has_prefix("/export"@, "/plan "@),
        "/export"@ != "/reset"@ && "/export"@ != "/interrupt"@,
        !has_prefix("/save"@, "/load "@),
        !has_prefix("/save"@, "/tool "@),
        !has_prefix("/save"@, "/plan "@),
        "/save"@ != "/reset"@ && "/save"@ != "/interrupt"@,
{
    reveal_strlit("/exit");
    reveal_strlit("/salir");
    reveal_strlit("/tools on");
    reveal_strlit("/tools off");
    reveal_strlit("/planner on");
    reveal_strlit("/planner off");
    reveal_strlit("/export");
    reveal_strlit("/save");
    reveal_strlit("/load ");
    reveal_strlit("/tool ");
    reveal_strlit("/plan ");
    reveal_strlit("/reset");
    reveal_strlit("/interrupt");
    assert("/exit"@.len() != "/salir"@.len());
    assert("/exit"@.len() != "/tools on"@.len());
    assert("/exit"@.len() != "/tools off"@.len());
    assert("/exit"@.len() != "/planner on"@.len());
    assert("/exit"@.len() != "/planner off"@.len());
    assert("/exit"@.len() != "/export"@.len());
    assert("/exit"@[1] != "/save"@[1]);
    assert("/salir"@.len() != "/tools on"@.len());
    assert("/salir"@.len() != "/tools off"@.len());
    assert("/salir"@.len() != "/planner on"@.len());
    assert("/salir"@.len() != "/planner off"@.len());
    assert("/salir"@.len() != "/export"@.len());
    assert("/salir"@.len() != "/save"@.len());
    assert("/tools on"@.len() != "/tools off"@.len());
    assert("/tools on"@.len() != "/planner on"@.len());
    assert("/tools on"@.len() != "/planner off"@.len());
    assert("/tools on"@.len() != "/export"@.len());
    assert("/tools on"@.len() != "/save"@.len());
    assert("/tools off"@.len() != "/planner on"@.len());
    assert("/tools off"@.len() != "/planner off"@.len());
    assert("/tools off"@.len() != "/export"@.len());
    assert("/tools off"@.len() != "/save"@.len());
    assert("/planner on"@.len() != "/planner off"@.len());
    assert("/planner on"@.len() != "/export"@.len());
    assert("/planner on"@.len() != "/save"@.len());
    assert("/planner off"@.len() != "/export"@.len());
    assert("/planner off"@.len() != "/save"@.len());
    assert("/export"@.len() != "/save"@.len());
    assert("/exit"@.len() != "/reset"@.len());
    assert("/exit"@.len() != "/interrupt"@.len());
    assert("/load "@.len() > "/exit"@.len());
    assert("/tool "@.len() > "/exit"@.len());
    assert("/plan "@.len() > "/exit"@.len());
    assert("/salir"@[1] != "/reset"@[1]);
    assert("/salir"@.len() != "/interrupt"@.len());
    assert("/salir"@.subrange(0, 6)[1] != "/load "@[1]);
    assert("/salir"@.subrange(0, 6)[1] != "/tool "@[1]);
    assert("/salir"@.subrange(0, 6)[1] != "/plan "@[1]);
    assert("/tools on"@.len() != "/reset"@.len());
    assert("/tools on"@.len() != "/interrupt"@.len());
    assert("/tools on"@.subrange(0, 6)[1] != "/load "@[1]);
    assert("/tools on"@.subrange(0, 6)[5] != "/tool "@[5]);
    assert("/tools on"@.subrange(0, 6)[1] != "/plan "@[1]);
    assert("/tools off"@.len() != "/reset"@.len());
    assert("/tools off"@[1] != "/interrupt"@[1]);
    assert("/tools off"@.subrange(0, 6)[1] != "/load "@[1]);
    assert("/tools off"@.subrange(0, 6)[5] != "/tool "@[5]);
    assert("/tools off"@.subrange(0, 6)[1] != "/plan "@[1]);
    assert("/planner on"@.len() != "/reset"@.len());
    assert("/planner on"@.len() != "/interrupt"@.len());
    assert("/planner on"@.subrange(0, 6)[1] != "/load "@[1]);
    assert("/planner on"@.subrange(0, 6)[1] != "/tool "@[1]);
    assert("/planner on"@.subrange(0, 6)[5] != "/plan "@[5]);
    assert("/planner off"@.len() != "/reset"@.len());
    assert("/planner off"@.len() != "/interrupt"@.len());
    assert("/planner off"@.subrange(0, 6)[1] != "/load "@[1]);
    assert("/planner off"@.subrange(0, 6)[1] != "/tool "@[1]);
    assert("/planner off"@.subrange(0, 6)[5] != "/plan "@[5]);
    assert("/export"@.len() != "/reset"@.len());
    assert("/export"@.len() != "/interrupt"@.len());
    assert("/export"@.subrange(0, 6)[1] != "/load "@[1]);
    assert("/export"@.subrange(0, 6)[1] != "/tool "@[1]);
    assert("/export"@.subrange(0, 6)[1] != "/plan "@[1]);
    assert("/save"@.len() != "/reset"@.len());
    assert("/save"@.len() != "/interrupt"@.len());
    assert("/load "@.len() > "/save"@.len());
    assert("/tool "@.len() > "/save"@.len());
    assert("/plan "@.len() > "/save"@.len());
}

pub open spec fn trim_start(s: Seq<char>) -> Seq<char>
    decreases s.len(),
{
    if s.len() > 0 && is_ws(s[0]) { trim_start(s.drop_first()) } else { s }
}

pub open spec fn trim_end(s: Seq<char>) -> Seq<char>
    decreases s.len(),
{
    if s.len() > 0 && is_ws(s.last()) { trim_end(s.drop_last()) } else { s }
}

/// The lines the REPL treats as commands.
pub open spec fn repl_command(t: Seq<char>) -> bool {
    ||| t == "/exit"@ || t == "/salir"@ || t == "/reset"@ || t == "/export"@ || t == "/save"@
    ||| has_prefix(t, "/load "@) || t == "/interrupt"@
    ||| t == "/tools on"@ || t == "/tools off"@ || t == "/planner on"@ || t == "/planner off"@
    ||| has_prefix(t, "/tool "@) || has_prefix(t, "/plan "@)
}

/// A chat line: on an open session the user turn and then the reply
/// `ack:N` are recorded, `N` counting the events after the user turn.
pub open spec fn repl_chat(old: Session, new: Session, t: Seq<char>, r: Result<ReplOutcome, SessionError>) -> bool {
    if old.status == SessionStatus::Closed {
        r == Err::<ReplOutcome, SessionError>(SessionError::Closed) && new == old
    } else {
        let reply = "ack:"@ + dec((old.events@.len() + 1) as nat);
        &&& exists|mid: Session| #[trigger] pushed(old, mid, EventKind::User, t) && pushed(mid, new, EventKind::Assistant, reply)
        &&& r matches Ok(ReplOutcome::Reply(x)) && x@ == reply
    }
}

/// `s` is what `Session::load` gives for the text `blob`.
pub open spec fn loaded_as(blob: Seq<char>, s: Session) -> bool {
    match load_lines(lines_of(blob), lines_of(blob).len()) {
        Ok(st) => missing_field(st) is None && session_from(s, st) && secret_free(session_text(s)),
        Err(_) => false,
    }
}

/// A line without its leading and trailing white space (`str::trim`).
pub open spec fn repl_trim(s: Seq<char>) -> Seq<char> {
    trim_end(trim_start(s))
}

proof fn lemma_trim_start(s: Seq<char>, from: int)
    requires
        0 <= from <= s.len(),
        forall|j: int| 0 <= j < from ==> is_ws(s[j]),
        from == s.len() || !is_ws(s[from]),
    ensures
        trim_start(s) == s.subrange(from, s.len() as int),
    decreases from,
{
    if from == 0 {
        assert(s.subrange(0, s.len() as int) =~= s);
    } else {
        let t = s.drop_first();
        assert forall|j: int| 0 <= j < from - 1 implies is_ws(t[j]) by {
            assert(t[j] == s[j + 1]);
        }
        if from - 1 < t.len() {
            assert(t[from - 1] == s[from]);
        }
        lemma_trim_start(t, from - 1);
        assert(t.subrange(from - 1, t.len() as int) =~= s.subrange(from, s.len() as int));
    }
}

proof fn lemma_trim_end(s: Seq<char>, to: int)
    requires
        0 <= to <= s.len(),
        forall|j: int| to <= j < s.len() ==> is_ws(s[j]),
        to == 0 || !is_ws(s[to - 1]),
    ensures
        trim_end(s) == s.subrange(0, to),
    decreases s.len() - to,
{
    if to == s.len() {
        assert(s.subrange(0, to) =~= s);
    } else {
        let t = s.drop_last();
        lemma_trim_end(t, to);
        assert(t.subrange(0, to) =~= s.subrange(0, to));
    }
}

proof fn lemma_trim_spec(s: Seq<char>, cs: Seq<char>, from: int, to: int)
    requires
        cs == s,
        0 <= from <= to <= s.len(),
        forall|j: int| 0 <= j < from ==> is_ws(cs[j]),
        forall|j: int| to <= j < cs.len() ==> is_ws(cs[j]),
        from < cs.len() ==> !is_ws(cs[from]),
        to > from ==> !is_ws(cs[to - 1]),
        from == cs.len() || from < to,
    ensures
        repl_trim(s) == cs.subrange(from, to),
{
    lemma_trim_start(s, from);
    let u = s.subrange(from, s.len() as int);
    assert forall|j: int| to - from <= j < u.len() implies is_ws(u[j]) by {
        assert(u[j] == s[from + j]);
    }
    if to - from > 0 {
        assert(u[to - from - 1] == s[to - 1]);
    }
    lemma_trim_end(u, to - from);
    assert(u.subrange(0, to - from) =~= cs.subrange(from, to));
}

// ---------------------------------------------------------------------------
// Reading back an exported session
// ---------------------------------------------------------------------------

proof fn lemma_log_esc_front(x: Seq<char>)
    requires
        x.len() > 0,
    ensures
        log_esc(x) == log_esc_char(x[0]) + log_esc(x.drop_first()),
    decreases x.len(),
{
    if x.len() == 1 {
        assert(x.drop_last() =~= Seq::<char>::empty());
        assert(x.drop_first() =~= Seq::<char>::empty());
        assert(log_esc(Seq::<char>::empty()) =~= Seq::<char>::empty());
        assert(log_esc_char(x[0]) + Seq::<char>::empty() =~= log_esc_char(x[0]));
    } else {
        lemma_log_esc_front(x.drop_last());
        assert(x.drop_last().drop_first() =~= x.drop_first().drop_last());
        assert(x.drop_first().last() == x.last());
        assert(x.drop_last()[0] == x[0]);
    }
}

/// Undoing the log escaping gives the text back.
pub proof fn lemma_log_unesc_esc(x: Seq<char>)
    ensures
        log_unesc(log_esc(x)) == x,
    decreases x.len(),
{
    if x.len() == 0 {
        assert(log_esc(x) =~= Seq::<char>::empty());
    } else {
        lemma_log_esc_front(x);
        lemma_log_unesc_esc(x.drop_first());
        let c = x[0];
        let e = log_esc_char(c);
        let rest = log_esc(x.drop_first());
        let t = e + rest;
        if c == '\\' || c == '|' || c == '\n' || c == '\r' {
            assert(t[0] == '\\');
            assert(t.len() >= 2);
            assert(t.subrange(2, t.len() as int) =~= rest);
        } else {
            assert(t[0] == c);
            assert(t.drop_first() =~= rest);
        }
        assert(seq![c] + x.drop_first() =~= x);
    }
}

/// Log-escaped text holds no line break or carriage return, and its last
/// character is white space only where the text's own last one is.
proof fn lemma_log_esc_chars(x: Seq<char>)
    ensures
        forall|i: int| 0 <= i < log_esc(x).len() ==> #[trigger] log_esc(x)[i] != '\n' && log_esc(x)[i] != '\r',
        log_esc(x).len() == 0 <==> x.len() == 0,
        x.len() > 0 && !is_ws(x.last()) ==> !is_ws(log_esc(x).last()),
        x.len() > 0 && (x.last() == '\n' || x.last() == '\r') ==> !is_ws(log_esc(x).last()),
    decreases x.len(),
{
    if x.len() > 0 {
        lemma_log_esc_chars(x.drop_last());
        let a = log_esc(x.drop_last());
        let e = log_esc_char(x.last());
        assert forall|i: int| 0 <= i < (a + e).len() implies #[trigger] (a + e)[i] != '\n' && (a + e)[i] != '\r' by {
            if i < a.len() {
                assert((a + e)[i] == a[i]);
            } else {
                assert((a + e)[i] == e[i - a.len()]);
            }
        }
        assert((a + e).last() == e.last());
    }
}

/// A value that the trimming of lines keeps: it does not end in white space
/// other than a line break or carriage return, which escaping replaces.
pub open spec fn trim_safe(x: Seq<char>) -> bool {
    x.len() == 0 || !is_ws(x.last()) || x.last() == '\n' || x.last() == '\r'
}

pub open spec fn event_line(e: SessionEvent) -> Seq<char> {
    "event="@ + dec(e.seq as nat) + "|"@ + e.kind.spec_name() + "|"@ + log_esc(e.payload@)
}

pub open spec fn header_lines(s: Session) -> Seq<Seq<char>> {
    seq![
        "auralis_session="@ + dec(s.schema_version as nat),
        "session_id="@ + log_esc(s.session_id@),
        "generation="@ + dec(s.generation as nat),
        "status="@ + s.status.spec_name(),
        "tools="@ + flag(s.tools_enabled),
        "planner="@ + flag(s.planner_enabled),
        "checkpoint="@ + log_esc(s.model_checkpoint@),
    ]
}

/// The lines of an exported session.
pub open spec fn session_lines(s: Session) -> Seq<Seq<char>> {
    header_lines(s) + s.events@.map_values(|e: SessionEvent| event_line(e))
}

proof fn lemma_events_text_lines(es: Seq<SessionEvent>, n: nat)
    requires
        n <= es.len(),
    ensures
        events_text(es, n) == crate::protocol_text::joined_lines(es.take(n as int).map_values(|e: SessionEvent| event_line(e))),
    decreases n,
{
    reveal_strlit("\n");
    if n == 0 {
        assert(es.take(0).map_values(|e: SessionEvent| event_line(e)) =~= Seq::<Seq<char>>::empty());
    } else {
        lemma_events_text_lines(es, (n - 1) as nat);
        let ls = es.take(n as int).map_values(|e: SessionEvent| event_line(e));
        assert(ls.drop_last() =~= es.take(n - 1).map_values(|e: SessionEvent| event_line(e)));
        assert(ls.last() == event_line(es[n - 1]));
        assert(event_text(es[n - 1]) =~= event_line(es[n - 1]) + seq!['\n']);
    }
}

proof fn lemma_joined_push(ls: Seq<Seq<char>>, l: Seq<char>)
    ensures
        crate::protocol_text::joined_lines(ls.push(l)) == crate::protocol_text::joined_lines(ls) + l + seq!['\n'],
{
    assert(ls.push(l).drop_last() =~= ls);
}

#[verifier::spinoff_prover]
#[verifier::rlimit(100)]
proof fn lemma_session_text_lines(s: Session)
    ensures
        session_text(s) == crate::protocol_text::joined_lines(session_lines(s)),
{
    reveal_strlit("\n");
    let h = header_lines(s);
    let es = s.events@;
    let ev = es.map_values(|e: SessionEvent| event_line(e));
    lemma_events_text_lines(es, es.len());
    assert(es.take(es.len() as int) =~= es);
    crate::protocol_text::lemma_joined_append(h, ev);
    let e0 = Seq::<Seq<char>>::empty();
    assert(crate::protocol_text::joined_lines(e0) =~= Seq::<char>::empty());
    lemma_joined_push(e0, h[0]);
    lemma_joined_push(e0.push(h[0]), h[1]);
    lemma_joined_push(e0.push(h[0]).push(h[1]), h[2]);
    lemma_joined_push(e0.push(h[0]).push(h[1]).push(h[2]), h[3]);
    lemma_joined_push(e0.push(h[0]).push(h[1]).push(h[2]).push(h[3]), h[4]);
    lemma_joined_push(e0.push(h[0]).push(h[1]).push(h[2]).push(h[3]).push(h[4]), h[5]);
    lemma_joined_push(e0.push(h[0]).push(h[1]).push(h[2]).push(h[3]).push(h[4]).push(h[5]), h[6]);
    assert(h =~= e0.push(h[0]).push(h[1]).push(h[2]).push(h[3]).push(h[4]).push(h[5]).push(h[6]));
    assert(session_text(s) =~= crate::protocol_text::joined_lines(h) + events_text(es, es.len()));
}

proof fn lemma_not_prefix(l: Seq<char>, q: Seq<char>, i: int)
    requires
        0 <= i < q.len(),
        i < l.len() ==> l[i] != q[i],
    ensures
        !has_prefix(l, q),
{
    if has_prefix(l, q) {
        assert(l.subrange(0, q.len() as int)[i] == l[i]);
    }
}

proof fn lemma_prefix_of(p: Seq<char>, v: Seq<char>)
    ensures
        has_prefix(p + v, p),
        after(p + v, p) == v,
{
    assert((p + v).subrange(0, p.len() as int) =~= p);
    assert((p + v).subrange(p.len() as int, (p + v).len() as int) =~= v);
}

proof fn lemma_trimmed(l: Seq<char>)
    requires
        l.len() > 0,
        !is_ws(l[0]),
        !is_ws(l.last()),
    ensures
        repl_trim(l) == l,
{
    lemma_trim_start(l, 0);
    assert(l.subrange(0, l.len() as int) =~= l);
    lemma_trim_end(l, l.len() as int);
}

/// A header or event line: a prefix, then a value.
proof fn lemma_line_shape(p: Seq<char>, v: Seq<char>)
    requires
        p.len() > 0,
        !is_ws(p[0]),
        v.len() == 0 ==> !is_ws(p.last()),
        v.len() > 0 ==> !is_ws(v.last()),
    ensures
        repl_trim(p + v) == p + v,
        (p + v)[0] == p[0],
        p.len() > 1 ==> (p + v)[1] == p[1],
        has_prefix(p + v, p),
        after(p + v, p) == v,
{
    let l = p + v;
    assert(l[0] == p[0]);
    if v.len() > 0 {
        assert(l.last() == v.last());
    } else {
        assert(l.last() == p.last());
    }
    lemma_trimmed(l);
    lemma_prefix_of(p, v);
}

/// The names of the line prefixes, as far as telling them apart goes.
proof fn lemma_prefix_chars()
    ensures
        "auralis_session="@.len() == 16 && "auralis_session="@[0] == 'a',
        "session_id="@.len() == 11 && "session_id="@[0] == 's' && "session_id="@[1] == 'e' && "session_id="@[10] == '=',
        "generation="@.len() == 11 && "generation="@[0] == 'g',
        "status="@.len() == 7 && "status="@[0] == 's' && "status="@[1] == 't',
        "tools="@.len() == 6 && "tools="@[0] == 't',
        "planner="@.len() == 8 && "planner="@[0] == 'p',
        "checkpoint="@.len() == 11 && "checkpoint="@[0] == 'c' && "checkpoint="@[10] == '=',
        "event="@.len() == 6 && "event="@[0] == 'e',
        "="@.len() == 1,
{
    reveal_strlit("auralis_session=");
    reveal_strlit("session_id=");
    reveal_strlit("generation=");
    reveal_strlit("status=");
    reveal_strlit("tools=");
    reveal_strlit("planner=");
    reveal_strlit("checkpoint=");
    reveal_strlit("event=");
    reveal_strlit("=");
}

/// What the seven header lines of an exported session say.
pub open spec fn header_state(s: Session) -> LoadState {
    LoadState {
        schema: Some(s.schema_version),
        session_id: Some(s.session_id@),
        generation: Some(s.generation),
        status: Some(s.status),
        tools: Some(s.tools_enabled),
        planner: Some(s.planner_enabled),
        checkpoint: Some(s.model_checkpoint@),
        events: Seq::empty(),
    }
}

proof fn lemma_escaped_line_end(p: Seq<char>, x: Seq<char>)
    requires
        trim_safe(x),
        p.len() > 0,
        !is_ws(p[0]),
        !is_ws(p.last()),
    ensures
        repl_trim(p + log_esc(x)) == p + log_esc(x),
        (p + log_esc(x))[0] == p[0],
        p.len() > 1 ==> (p + log_esc(x))[1] == p[1],
        has_prefix(p + log_esc(x), p),
        after(p + log_esc(x), p) == log_esc(x),
{
    lemma_log_esc_chars(x);
    lemma_line_shape(p, log_esc(x));
}

proof fn lemma_dec_line_end(p: Seq<char>, n: nat)
    requires
        p.len() > 0,
        !is_ws(p[0]),
    ensures
        repl_trim(p + dec(n)) == p + dec(n),
        (p + dec(n))[0] == p[0],
        p.len() > 1 ==> (p + dec(n))[1] == p[1],
        has_prefix(p + dec(n), p),
        after(p + dec(n), p) == dec(n),
        parse_bounded(dec(n), u32::MAX as nat) == (if n <= u32::MAX { Some(n) } else { None::<nat> }),
{
    crate::text::lemma_dec_digits(n);
    crate::text::lemma_parse_dec(n);
    let d = dec(n);
    assert(crate::text::is_digit(d[d.len() - 1]));
    lemma_line_shape(p, d);
}

#[verifier::spinoff_prover]
#[verifier::rlimit(80)]
proof fn lemma_load_header(s: Session)
    requires
        s.schema_version == SESSION_SCHEMA_VERSION,
        trim_safe(s.session_id@),
        trim_safe(s.model_checkpoint@),
    ensures
        load_lines(session_lines(s), 7) == Ok::<LoadState, LoadFailure>(header_state(s)),
{
    let ls = session_lines(s);
    let h = header_lines(s);
    lemma_prefix_chars();
    reveal_strlit("1");
    reveal_strlit("0");
    reveal_strlit("active");
    reveal_strlit("interrupted");
    reveal_strlit("closed");
    assert forall|i: int| 0 <= i < 7 implies ls[i] == #[trigger] h[i] by {}
    let st0 = no_lines_read();
    // schema
    lemma_dec_line_end("auralis_session="@, s.schema_version as nat);
    assert(load_lines(ls, 0) == Ok::<LoadState, LoadFailure>(st0));
    let st1 = LoadState { schema: Some(s.schema_version), ..st0 };
    assert(load_line(st0, h[0]) == Ok::<LoadState, LoadFailure>(st1));
    assert(load_lines(ls, 1) == Ok::<LoadState, LoadFailure>(st1));
    // session id
    lemma_escaped_line_end("session_id="@, s.session_id@);
    lemma_log_unesc_esc(s.session_id@);
    lemma_not_prefix(h[1], "auralis_session="@, 0);
    let st2 = LoadState { session_id: Some(s.session_id@), ..st1 };
    assert(load_line(st1, h[1]) == Ok::<LoadState, LoadFailure>(st2));
    assert(load_lines(ls, 2) == Ok::<LoadState, LoadFailure>(st2));
    // generation
    lemma_dec_line_end("generation="@, s.generation as nat);
    lemma_not_prefix(h[2], "auralis_session="@, 0);
    lemma_not_prefix(h[2], "session_id="@, 0);
    let st3 = LoadState { generation: Some(s.generation), ..st2 };
    assert(load_line(st2, h[2]) == Ok::<LoadState, LoadFailure>(st3));
    assert(load_lines(ls, 3) == Ok::<LoadState, LoadFailure>(st3));
    // status
    let name = s.status.spec_name();
    lemma_line_shape("status="@, name);
    lemma_not_prefix(h[3], "auralis_session="@, 0);
    lemma_not_prefix(h[3], "session_id="@, 1);
    lemma_not_prefix(h[3], "generation="@, 0);
    assert(status_named(name) == Some(s.status));
    let st4 = LoadState { status: Some(s.status), ..st3 };
    assert(load_line(st3, h[3]) == Ok::<LoadState, LoadFailure>(st4));
    assert(load_lines(ls, 4) == Ok::<LoadState, LoadFailure>(st4));
    // tools
    lemma_line_shape("tools="@, flag(s.tools_enabled));
    lemma_not_prefix(h[4], "auralis_session="@, 0);
    lemma_not_prefix(h[4], "session_id="@, 0);
    lemma_not_prefix(h[4], "generation="@, 0);
    lemma_not_prefix(h[4], "status="@, 0);
    assert((flag(s.tools_enabled) == "1"@) == s.tools_enabled);
    let st5 = LoadState { tools: Some(s.tools_enabled), ..st4 };
    assert(load_line(st4, h[4]) == Ok::<LoadState, LoadFailure>(st5));
    assert(load_lines(ls, 5) == Ok::<LoadState, LoadFailure>(st5));
    // planner
    lemma_line_shape("planner="@, flag(s.planner_enabled));
    lemma_not_prefix(h[5], "auralis_session="@, 0);
    lemma_not_prefix(h[5], "session_id="@, 0);
    lemma_not_prefix(h[5], "generation="@, 0);
    lemma_not_prefix(h[5], "status="@, 0);
    lemma_not_prefix(h[5], "tools="@, 0);
    assert((flag(s.planner_enabled) == "1"@) == s.planner_enabled);
    let st6 = LoadState { planner: Some(s.planner_enabled), ..st5 };
    assert(load_line(st5, h[5]) == Ok::<LoadState, LoadFailure>(st6));
    assert(load_lines(ls, 6) == Ok::<LoadState, LoadFailure>(st6));
    // checkpoint
    lemma_escaped_line_end("checkpoint="@, s.model_checkpoint@);
    lemma_log_unesc_esc(s.model_checkpoint@);
    lemma_not_prefix(h[6], "auralis_session="@, 0);
    lemma_not_prefix(h[6], "session_id="@, 0);
    lemma_not_prefix(h[6], "generation="@, 0);
    lemma_not_prefix(h[6], "status="@, 0);
    lemma_not_prefix(h[6], "tools="@, 0);
    lemma_not_prefix(h[6], "planner="@, 0);
    let st7 = LoadState { checkpoint: Some(s.model_checkpoint@), ..st6 };
    assert(load_line(st6, h[6]) == Ok::<LoadState, LoadFailure>(st7));
    assert(load_lines(ls, 7) == Ok::<LoadState, LoadFailure>(st7));
    assert(st7 == header_state(s));
}

proof fn lemma_first_bar(t: Seq<char>, from: int, j: int)
    requires
        0 <= from <= j < t.len(),
        t[j] == '|',
        forall|q: int| from <= q < j ==> t[q] != '|',
    ensures
        first_bar(t, from) == j,
    decreases j - from,
{
    if from < j {
        lemma_first_bar(t, from + 1, j);
    }
}

proof fn lemma_kind_names(k: EventKind)
    ensures
        kind_named(k.spec_name()) == Some(k),
        forall|q: int| 0 <= q < k.spec_name().len() ==> #[trigger] k.spec_name()[q] != '|',
        crate::reasoning_suite::free_of(k.spec_name(), '\n') && crate::reasoning_suite::free_of(k.spec_name(), '\r'),
        k.spec_name().len() > 0,
{
    reveal_strlit("user");
    reveal_strlit("assistant");
    reveal_strlit("system");
    reveal_strlit("tool-intent");
    reveal_strlit("error");
    reveal_strlit("interrupt");
    assert("user"@.len() == 4 && "assistant"@.len() == 9 && "system"@.len() == 6);
    assert("tool-intent"@.len() == 11 && "error"@.len() == 5 && "interrupt"@.len() == 9);
    assert("assistant"@[0] != "interrupt"@[0]);
}

/// An event line reads back as its event.
#[verifier::spinoff_prover]
#[verifier::rlimit(60)]
proof fn lemma_event_line_loads(st: LoadState, e: SessionEvent)
    requires
        trim_safe(e.payload@),
    ensures
        load_line(st, event_line(e)) == Ok::<LoadState, LoadFailure>(
            LoadState { events: st.events.push((e.seq, e.kind, e.payload@)), ..st }),
{
    reveal_strlit("|");
    lemma_prefix_chars();
    let d = dec(e.seq as nat);
    let name = e.kind.spec_name();
    let pe = log_esc(e.payload@);
    let v = d + seq!['|'] + name + seq!['|'] + pe;
    let l = event_line(e);
    assert(l =~= "event="@ + v);
    crate::text::lemma_dec_digits(e.seq as nat);
    crate::text::lemma_parse_dec(e.seq as nat);
    lemma_kind_names(e.kind);
    lemma_log_esc_chars(e.payload@);
    lemma_log_unesc_esc(e.payload@);
    if pe.len() > 0 {
        assert(v.last() == pe.last());
    } else {
        assert(v.last() == '|');
    }
    lemma_line_shape("event="@, v);
    lemma_not_prefix(l, "auralis_session="@, 0);
    lemma_not_prefix(l, "session_id="@, 0);
    lemma_not_prefix(l, "generation="@, 0);
    lemma_not_prefix(l, "status="@, 0);
    lemma_not_prefix(l, "tools="@, 0);
    lemma_not_prefix(l, "planner="@, 0);
    lemma_not_prefix(l, "checkpoint="@, 0);
    let a = d.len() as int;
    let b = a + 1 + name.len();
    assert forall|q: int| 0 <= q < a implies v[q] != '|' by {
        assert(v[q] == d[q]);
        assert(crate::text::is_digit(d[q]));
    }
    assert(v[a] == '|');
    lemma_first_bar(v, 0, a);
    assert forall|q: int| a + 1 <= q < b implies v[q] != '|' by {
        assert(v[q] == name[q - a - 1]);
    }
    assert(v[b] == '|');
    lemma_first_bar(v, a + 1, b);
    assert(v.subrange(0, a) =~= d);
    assert(v.subrange(a + 1, b) =~= name);
    assert(v.subrange(b + 1, v.len() as int) =~= pe);
    assert(event_of(v) == Ok::<(u32, EventKind, Seq<char>), Seq<char>>((e.seq, e.kind, e.payload@)));
}

/// The event lines of an exported session read back as its events.
proof fn lemma_load_events(s: Session, j: nat)
    requires
        s.schema_version == SESSION_SCHEMA_VERSION,
        trim_safe(s.session_id@),
        trim_safe(s.model_checkpoint@),
        forall|i: int| 0 <= i < s.events@.len() ==> trim_safe(#[trigger] s.events@[i].payload@),
        j <= s.events@.len(),
    ensures
        load_lines(session_lines(s), 7 + j) == Ok::<LoadState, LoadFailure>(
            LoadState { events: events_view(s.events@.take(j as int)), ..header_state(s) }),
    decreases j,
{
    if j == 0 {
        lemma_load_header(s);
        assert(events_view(s.events@.take(0)) =~= Seq::<(u32, EventKind, Seq<char>)>::empty());
    } else {
        lemma_load_events(s, (j - 1) as nat);
        let e = s.events@[j - 1];
        let st = LoadState { events: events_view(s.events@.take(j - 1)), ..header_state(s) };
        assert(trim_safe(s.events@[j - 1].payload@));
        lemma_event_line_loads(st, e);
        assert(session_lines(s)[7 + j - 1] == event_line(e));
        assert(events_view(s.events@.take(j as int)) =~= events_view(s.events@.take(j - 1)).push((e.seq, e.kind, e.payload@)));
    }
}

#[verifier::spinoff_prover]
#[verifier::rlimit(60)]
proof fn lemma_session_lines_clean(s: Session)
    requires
        forall|i: int| 0 <= i < s.events@.len() ==> trim_safe(#[trigger] s.events@[i].payload@),
    ensures
        forall|i: int| 0 <= i < session_lines(s).len() ==> crate::protocol_text::clean_line(#[trigger] session_lines(s)[i]),
{
    let ls = session_lines(s);
    assert forall|i: int| 0 <= i < ls.len() implies crate::protocol_text::clean_line(#[trigger] ls[i]) by {
        lemma_prefix_chars();
        reveal_strlit("|");
        reveal_strlit("1");
        reveal_strlit("0");
        reveal_strlit("active");
        reveal_strlit("interrupted");
        reveal_strlit("closed");
        let l = ls[i];
        if i >= 7 {
            let e = s.events@[i - 7];
            assert(l == event_line(e));
            lemma_log_esc_chars(e.payload@);
            lemma_dec_clean(e.seq as nat);
            lemma_kind_names(e.kind);
            lemma_prefixes_clean();
            let d = dec(e.seq as nat);
            let name = e.kind.spec_name();
            let pe = log_esc(e.payload@);
            let bar = seq!['|'];
            assert(crate::reasoning_suite::free_of(bar, '\n') && crate::reasoning_suite::free_of(bar, '\r'));
            assert(crate::reasoning_suite::free_of(pe, '\n') && crate::reasoning_suite::free_of(pe, '\r'));
            lemma_free_concat(d, bar);
            lemma_free_concat(d + bar, name);
            lemma_free_concat(d + bar + name, bar);
            lemma_free_concat(d + bar + name + bar, pe);
            lemma_clean_concat("event="@, d + bar + name + bar + pe);
            assert(l =~= "event="@ + (d + bar + name + bar + pe));
        } else {
            lemma_prefixes_clean();
            lemma_log_esc_chars(s.session_id@);
            lemma_log_esc_chars(s.model_checkpoint@);
            lemma_dec_clean(s.schema_version as nat);
            lemma_dec_clean(s.generation as nat);
            let h = header_lines(s);
            assert(l == h[i]);
            if i == 0 {
                lemma_clean_concat("auralis_session="@, dec(s.schema_version as nat));
            } else if i == 1 {
                lemma_clean_concat("session_id="@, log_esc(s.session_id@));
            } else if i == 2 {
                lemma_clean_concat("generation="@, dec(s.generation as nat));
            } else if i == 3 {
                lemma_clean_concat("status="@, s.status.spec_name());
            } else if i == 4 {
                lemma_clean_concat("tools="@, flag(s.tools_enabled));
            } else if i == 5 {
                lemma_clean_concat("planner="@, flag(s.planner_enabled));
            } else {
                lemma_clean_concat("checkpoint="@, log_esc(s.model_checkpoint@));
            }
        }
    }
}

/// Loading an exported session gives it back: the text reads as its
/// header and events, nothing is missing, and the session read has every
/// field of `s`; for a session of this schema whose text holds no secret
/// marker and whose id, checkpoint and payloads do not end in white space
/// (other than a line break or carriage return).
pub proof fn lemma_session_roundtrip(s: Session)
    requires
        s.schema_version == SESSION_SCHEMA_VERSION,
        secret_free(session_text(s)),
        trim_safe(s.session_id@),
        trim_safe(s.model_checkpoint@),
        forall|i: int| 0 <= i < s.events@.len() ==> trim_safe(#[trigger] s.events@[i].payload@),
    ensures
        load_lines(lines_of(session_text(s)), lines_of(session_text(s)).len()) matches Ok(st)
            && missing_field(st) is None && session_from(s, st),
{
    let ls = session_lines(s);
    let n = s.events@.len();
    lemma_session_text_lines(s);
    lemma_session_lines_clean(s);
    crate::protocol_text::lemma_lines_of_joined(ls);
    lemma_load_events(s, n);
    assert(s.events@.take(n as int) =~= s.events@);
    let lp = ls.push(Seq::<char>::empty());
    assert(lp[ls.len() as int] == Seq::<char>::empty());
    assert(repl_trim(Seq::<char>::empty()) =~= Seq::<char>::empty());
    assert(load_lines(lp, ls.len()) == load_lines(ls, ls.len())) by {
        lemma_load_prefix(ls, Seq::<char>::empty(), ls.len());
    }
    let st = LoadState { events: events_view(s.events@), ..header_state(s) };
    assert(load_lines(lp, lp.len()) == Ok::<LoadState, LoadFailure>(st));
}

proof fn lemma_prefixes_clean()
    ensures
        crate::reasoning_suite::free_of("auralis_session="@, '\n') && crate::reasoning_suite::free_of("auralis_session="@, '\r'),
        crate::reasoning_suite::free_of("session_id="@, '\n') && crate::reasoning_suite::free_of("session_id="@, '\r'),
        crate::reasoning_suite::free_of("generation="@, '\n') && crate::reasoning_suite::free_of("generation="@, '\r'),
        crate::reasoning_suite::free_of("status="@, '\n') && crate::reasoning_suite::free_of("status="@, '\r'),
        crate::reasoning_suite::free_of("tools="@, '\n') && crate::reasoning_suite::free_of("tools="@, '\r'),
        crate::reasoning_suite::free_of("planner="@, '\n') && crate::reasoning_suite::free_of("planner="@, '\r'),
        crate::reasoning_suite::free_of("checkpoint="@, '\n') && crate::reasoning_suite::free_of("checkpoint="@, '\r'),
        crate::reasoning_suite::free_of("active"@, '\n') && crate::reasoning_suite::free_of("active"@, '\r'),
        crate::reasoning_suite::free_of("interrupted"@, '\n') && crate::reasoning_suite::free_of("interrupted"@, '\r'),
        crate::reasoning_suite::free_of("closed"@, '\n') && crate::reasoning_suite::free_of("closed"@, '\r'),
        crate::reasoning_suite::free_of("1"@, '\n') && crate::reasoning_suite::free_of("1"@, '\r'),
        crate::reasoning_suite::free_of("0"@, '\n') && crate::reasoning_suite::free_of("0"@, '\r'),
        crate::reasoning_suite::free_of("event="@, '\n') && crate::reasoning_suite::free_of("event="@, '\r'),
{
    reveal_strlit("event=");
    reveal_strlit("auralis_session=");
    reveal_strlit("session_id=");
    reveal_strlit("generation=");
    reveal_strlit("status=");
    reveal_strlit("tools=");
    reveal_strlit("planner=");
    reveal_strlit("checkpoint=");
    reveal_strlit("active");
    reveal_strlit("interrupted");
    reveal_strlit("closed");
    reveal_strlit("1");
    reveal_strlit("0");
}

proof fn lemma_dec_clean(n: nat)
    ensures
        crate::reasoning_suite::free_of(dec(n), '\n') && crate::reasoning_suite::free_of(dec(n), '\r'),
{
    crate::text::lemma_dec_digits(n);
    assert forall|q: int| 0 <= q < dec(n).len() implies #[trigger] dec(n)[q] != '\n' && dec(n)[q] != '\r' by {
        assert(crate::text::is_digit(dec(n)[q]));
    }
}

proof fn lemma_free_concat(a: Seq<char>, b: Seq<char>)
    requires
        crate::reasoning_suite::free_of(a, '\n') && crate::reasoning_suite::free_of(a, '\r'),
        crate::reasoning_suite::free_of(b, '\n') && crate::reasoning_suite::free_of(b, '\r'),
    ensures
        crate::reasoning_suite::free_of(a + b, '\n') && crate::reasoning_suite::free_of(a + b, '\r'),
{
    assert forall|q: int| 0 <= q < (a + b).len() implies #[trigger] (a + b)[q] != '\n' && (a + b)[q] != '\r' by {
        if q < a.len() {
            assert((a + b)[q] == a[q]);
        } else {
            assert((a + b)[q] == b[q - a.len()]);
        }
    }
}

proof fn lemma_clean_concat(p: Seq<char>, v: Seq<char>)
    requires
        crate::reasoning_suite::free_of(p, '\n') && crate::reasoning_suite::free_of(p, '\r'),
        crate::reasoning_suite::free_of(v, '\n') && crate::reasoning_suite::free_of(v, '\r'),
    ensures
        crate::protocol_text::clean_line(p + v),
{
    let l = p + v;
    assert forall|q: int| 0 <= q < l.len() implies #[trigger] l[q] != '\n' && l[q] != '\r' by {
        if q < p.len() {
            assert(l[q] == p[q]);
        } else {
            assert(l[q] == v[q - p.len()]);
        }
    }
    if l.len() > 0 {
        assert(l.last() == l[l.len() - 1]);
    }
}

proof fn lemma_load_prefix(ls: Seq<Seq<char>>, extra: Seq<char>, n: nat)
    requires
        n <= ls.len(),
    ensures
        load_lines(ls.push(extra), n) == load_lines(ls, n),
    decreases n,
{
    if n > 0 {
        lemma_load_prefix(ls, extra, (n - 1) as nat);
        assert(ls.push(extra)[n - 1] == ls[n - 1]);
    }
}

} // verus!
