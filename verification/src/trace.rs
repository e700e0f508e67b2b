//! Session traces of agent runs and redaction of secrets in recorded text.

use vstd::prelude::*;
use crate::text::{chars_of, contains_seq, has_prefix, push_char, push_str, push_u64, string_from, string_of};

verus! {

pub const AGENT_EVAL_SCHEMA_VERSION: u32 = 1;

pub const REDACTED: &'static str = "[REDACTED]";

/// A space-separated word that carries a secret: one holding `SECRET`, a
/// live key, or a `token=`, `password=`, `secret=` or `api_key=`
/// assignment.
pub open spec fn secret_word(w: Seq<char>) -> bool {
    ||| contains_seq(w, "SECRET"@)
    ||| contains_seq(w, "sk-live-"@)
    ||| contains_seq(w, "token="@)
    ||| contains_seq(w, "password="@)
    ||| contains_seq(w, "secret="@)
    ||| contains_seq(w, "api_key="@)
}

pub fn is_secret_word(w: &str) -> (r: bool)
    ensures
        r == secret_word(w@),
{
    crate::text::contains(w, "SECRET") || crate::text::contains(w, "sk-live-") || crate::text::contains(w, "token=")
        || crate::text::contains(w, "password=") || crate::text::contains(w, "secret=")
        || crate::text::contains(w, "api_key=")
}

/// The words of a text between spaces (always at least one, possibly
/// empty).
pub open spec fn words(s: Seq<char>) -> Seq<Seq<char>>
    decreases s.len(),
{
    if s.len() == 0 {
        seq![Seq::<char>::empty()]
    } else {
        let p = words(s.drop_last());
        if s.last() == ' ' {
            p.push(Seq::<char>::empty())
        } else {
            p.update(p.len() - 1, p.last().push(s.last()))
        }
    }
}

pub open spec fn redact_word(w: Seq<char>) -> Seq<char> {
    if secret_word(w) { "[REDACTED]"@ } else { w }
}

/// Words joined back with single spaces, each secret word replaced.
pub open spec fn join_redacted(ws: Seq<Seq<char>>) -> Seq<char>
    decreases ws.len(),
{
    if ws.len() == 0 {
        Seq::empty()
    } else if ws.len() == 1 {
        redact_word(ws[0])
    } else {
        join_redacted(ws.drop_last()) + seq![' '] + redact_word(ws.last())
    }
}

/// The text with every secret word replaced by `[REDACTED]`.
pub open spec fn redact_spec(s: Seq<char>) -> Seq<char> {
    join_redacted(words(s))
}

/// A text none of whose characters is the first character of `m` does not
/// hold `m`.
proof fn lemma_missing_first_char(t: Seq<char>, m: Seq<char>)
    requires
        m.len() > 0,
        forall|i: int| 0 <= i < t.len() ==> t[i] != m[0],
    ensures
        !contains_seq(t, m),
{
    if contains_seq(t, m) {
        let i = choose|i: int| 0 <= i && i + m.len() <= t.len() && #[trigger] t.subrange(i, i + m.len()) == m;
        assert(t.subrange(i, i + m.len())[0] == t[i]);
    }
}

/// A marker without spaces that occurs in neither part does not occur in
/// the two parts joined by a space.
proof fn lemma_no_marker_across_space(a: Seq<char>, b: Seq<char>, m: Seq<char>)
    requires
        m.len() > 0,
        forall|j: int| 0 <= j < m.len() ==> m[j] != ' ',
        !contains_seq(a, m),
        !contains_seq(b, m),
    ensures
        !contains_seq(a + seq![' '] + b, m),
{
    let t = a + seq![' '] + b;
    let n = m.len() as int;
    if contains_seq(t, m) {
        let i = choose|i: int| 0 <= i && i + n <= t.len() && #[trigger] t.subrange(i, i + n) == m;
        if i + n <= a.len() {
            assert(a.subrange(i, i + n) =~= t.subrange(i, i + n));
        } else if i > a.len() {
            let k = i - a.len() - 1;
            assert(b.subrange(k, k + n) =~= t.subrange(i, i + n));
        } else {
            assert(t.subrange(i, i + n)[a.len() - i] == t[a.len() as int]);
        }
    }
}

/// Words joined with spaces hold no marker without spaces that none of the
/// redacted words holds.
proof fn lemma_joined_words_no_marker(ws: Seq<Seq<char>>, m: Seq<char>)
    requires
        m.len() > 0,
        forall|j: int| 0 <= j < m.len() ==> m[j] != ' ',
        forall|i: int| 0 <= i < ws.len() ==> !contains_seq(redact_word(#[trigger] ws[i]), m),
    ensures
        !contains_seq(join_redacted(ws), m),
    decreases ws.len(),
{
    if ws.len() == 0 {
        assert(!contains_seq(Seq::<char>::empty(), m));
    } else if ws.len() == 1 {
        assert(!contains_seq(redact_word(ws[0]), m));
    } else {
        let front = ws.drop_last();
        assert forall|i: int| 0 <= i < front.len() implies !contains_seq(redact_word(#[trigger] front[i]), m) by {
            assert(front[i] == ws[i]);
        }
        lemma_joined_words_no_marker(front, m);
        assert(!contains_seq(redact_word(ws[ws.len() - 1]), m));
        lemma_no_marker_across_space(join_redacted(front), redact_word(ws.last()), m);
    }
}

/// Redacting a text leaves none of the markers of a secret in it: not
/// `SECRET`, `sk-live-`, `token=`, `password=`, `secret=` or `api_key=`.
/// Every word that held one reads `[REDACTED]` instead, so the text of a
/// redacted session passes the check for unredacted secrets.
pub proof fn lemma_redacted_text_holds_no_marker(s: Seq<char>)
    ensures
        !contains_seq(redact_spec(s), "SECRET"@),
        !contains_seq(redact_spec(s), "sk-live-"@),
        !contains_seq(redact_spec(s), "token="@),
        !contains_seq(redact_spec(s), "password="@),
        !contains_seq(redact_spec(s), "secret="@),
        !contains_seq(redact_spec(s), "api_key="@),
{
    reveal_strlit("[REDACTED]");
    reveal_strlit("SECRET");
    reveal_strlit("sk-live-");
    reveal_strlit("token=");
    reveal_strlit("password=");
    reveal_strlit("secret=");
    reveal_strlit("api_key=");
    let markers: Seq<Seq<char>> = seq!["SECRET"@, "sk-live-"@, "token="@, "password="@, "secret="@, "api_key="@];
    let ws = words(s);
    assert forall|k: int| 0 <= k < 6 implies !contains_seq(join_redacted(ws), #[trigger] markers[k]) by {
        let m = markers[k];
        assert(m.len() > 0);
        assert forall|j: int| 0 <= j < m.len() implies m[j] != ' ' by {}
        lemma_missing_first_char("[REDACTED]"@, m);
        assert forall|i: int| 0 <= i < ws.len() implies !contains_seq(redact_word(#[trigger] ws[i]), m) by {}
        lemma_joined_words_no_marker(ws, m);
    }
    assert(markers[0] == "SECRET"@);
    assert(markers[1] == "sk-live-"@);
    assert(markers[2] == "token="@);
    assert(markers[3] == "password="@);
    assert(markers[4] == "secret="@);
    assert(markers[5] == "api_key="@);
}

fn push_word(out: &mut String, cs: &Vec<char>, from: usize, to: usize)
    requires
        from <= to <= cs.len(),
    ensures
        final(out)@ == old(out)@ + redact_word(cs@.subrange(from as int, to as int)),
{
    let w = string_of(cs, from, to);
    if is_secret_word(w.as_str()) {
        push_str(out, REDACTED);
        proof { reveal_strlit("[REDACTED]"); }
    } else {
        push_str(out, w.as_str());
    }
}

/// Replaces every secret word of a text by `[REDACTED]`.
pub fn redact(text: &str) -> (r: String)
    ensures
        r@ == redact_spec(text@),
{
    let cs = chars_of(text);
    let mut out = String::new();
    let mut start: usize = 0;
    let mut i: usize = 0;
    let ghost mut done: Seq<Seq<char>> = Seq::empty();
    assert(cs@.subrange(0, 0) =~= Seq::<char>::empty());
    while i < cs.len()
        invariant
            cs@ == text@,
            start <= i <= cs.len(),
            words(cs@.subrange(0, i as int)) == done.push(cs@.subrange(start as int, i as int)),
            out@ == join_redacted(done) + (if done.len() > 0 { seq![' '] } else { Seq::<char>::empty() }),
        decreases cs.len() - i,
    {
        assert(cs@.subrange(0, i + 1).drop_last() =~= cs@.subrange(0, i as int));
        if cs[i] == ' ' {
            let ghost cur = cs@.subrange(start as int, i as int);
            push_word(&mut out, &cs, start, i);
            push_char(&mut out, ' ');
            proof {
                let nd = done.push(cur);
                assert(nd.drop_last() =~= done);
                if done.len() == 0 {
                    assert(out@ =~= join_redacted(nd) + seq![' ']);
                } else {
                    assert(out@ =~= join_redacted(nd) + seq![' ']);
                }
                done = nd;
            }
            i = i + 1;
            start = i;
            assert(cs@.subrange(start as int, i as int) =~= Seq::<char>::empty());
        } else {
            i = i + 1;
            assert(cs@.subrange(start as int, i as int) =~= cs@.subrange(start as int, i - 1).push(cs@[i - 1]));
        }
    }
    let ghost last = cs@.subrange(start as int, cs.len() as int);
    push_word(&mut out, &cs, start, cs.len());
    proof {
        let nd = done.push(last);
        assert(nd.drop_last() =~= done);
        assert(cs@.subrange(0, cs.len() as int) =~= text@);
        assert(out@ =~= join_redacted(nd));
    }
    out
}

#[derive(Clone, Copy, Debug, PartialEq, Eq)]
pub enum TraceKind {
    ToolCall,
    ToolResult,
    Error,
    Plan,
    Timing,
}

impl TraceKind {
    pub open spec fn spec_name(self) -> Seq<char> {
        match self {
            TraceKind::ToolCall => "tool-call"@,
            TraceKind::ToolResult => "tool-result"@,
            TraceKind::Error => "error"@,
            TraceKind::Plan => "plan"@,
            TraceKind::Timing => "timing"@,
        }
    }

    pub fn as_str(self) -> (r: &'static str)
        ensures
            r@ == self.spec_name(),
    {
        match self {
            TraceKind::ToolCall => "tool-call",
            TraceKind::ToolResult => "tool-result",
            TraceKind::Error => "error",
            TraceKind::Plan => "plan",
            TraceKind::Timing => "timing",
        }
    }
}

#[derive(Clone, Debug, PartialEq, Eq)]
pub struct TraceEvent {
    pub step_id: String,
    pub call_id: String,
    pub kind: TraceKind,
    pub payload: String,
    pub elapsed_ms: u64,
}

#[derive(Clone, Debug, PartialEq, Eq)]
pub struct SessionTrace {
    pub session_id: String,
    pub schema_version: u32,
    pub commit: String,
    pub config: String,
    pub model: String,
    pub checkpoint: String,
    pub events: Vec<TraceEvent>,
}

/// Canonical line of one event: its fields, each redacted, separated by `|`.
pub open spec fn event_line(e: TraceEvent) -> Seq<char> {
    "event="@ + redact_spec(e.step_id@) + "|"@ + redact_spec(e.call_id@) + "|"@ + e.kind.spec_name() + "|"@
        + redact_spec(e.payload@) + "|"@ + crate::text::dec(e.elapsed_ms as nat) + "\n"@
}

pub open spec fn events_text(es: Seq<TraceEvent>, n: nat) -> Seq<char>
    decreases n,
{
    if n == 0 || n > es.len() {
        Seq::empty()
    } else {
        events_text(es, (n - 1) as nat) + event_line(es[n - 1])
    }
}

pub open spec fn trace_text(t: SessionTrace) -> Seq<char> {
    "auralis_trace="@ + crate::text::dec(t.schema_version as nat) + "\n"@ + "session="@ + redact_spec(t.session_id@)
        + "\n"@ + "commit="@ + redact_spec(t.commit@) + "\n"@ + "config="@ + redact_spec(t.config@) + "\n"@
        + "model="@ + redact_spec(t.model@) + "\n"@ + "checkpoint="@ + redact_spec(t.checkpoint@) + "\n"@
        + events_text(t.events@, t.events@.len())
}

fn push_line(out: &mut String, key: &str, value: &str)
    ensures
        final(out)@ == old(out)@ + key@ + redact_spec(value@) + "\n"@,
{
    push_str(out, key);
    let v = redact(value);
    push_str(out, v.as_str());
    push_str(out, "\n");
    assert(final(out)@ =~= old(out)@ + key@ + redact_spec(value@) + "\n"@);
}

fn push_event_line(out: &mut String, e: &TraceEvent)
    ensures
        final(out)@ == old(out)@ + event_line(*e),
{
    let ghost before = out@;
    push_str(out, "event=");
    push_str(out, redact(e.step_id.as_str()).as_str());
    push_str(out, "|");
    push_str(out, redact(e.call_id.as_str()).as_str());
    push_str(out, "|");
    push_str(out, e.kind.as_str());
    push_str(out, "|");
    push_str(out, redact(e.payload.as_str()).as_str());
    push_str(out, "|");
    push_u64(out, e.elapsed_ms);
    push_str(out, "\n");
    assert(out@ =~= before + event_line(*e));
}

impl SessionTrace {
    /// Canonical text of the trace, every field redacted.
    pub fn canonical(&self) -> (r: String)
        ensures
            r@ == trace_text(*self),
    {
        let mut out = string_from("auralis_trace=");
        push_u64(&mut out, self.schema_version as u64);
        push_str(&mut out, "\n");
        push_line(&mut out, "session=", self.session_id.as_str());
        push_line(&mut out, "commit=", self.commit.as_str());
        push_line(&mut out, "config=", self.config.as_str());
        push_line(&mut out, "model=", self.model.as_str());
        push_line(&mut out, "checkpoint=", self.checkpoint.as_str());
        let ghost head = out@;
        let mut i: usize = 0;
        while i < self.events.len()
            invariant
                i <= self.events.len(),
                out@ == head + events_text(self.events@, i as nat),
            decreases self.events.len() - i,
        {
            push_event_line(&mut out, &self.events[i]);
            i = i + 1;
            assert(out@ =~= head + events_text(self.events@, i as nat));
        }
        assert(out@ =~= trace_text(*self));
        out
    }
}

} // verus!
