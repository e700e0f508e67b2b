//! Session memory, decoupled from model weights.
//!
//! An optional short-term store. Memory that is off keeps the runtime
//! callable. Two memories never share records. Eviction is explicit:
//! the oldest record goes when capacity is reached.

use vstd::prelude::*;
use crate::protocol_text::{lines_of, split_lines, strings_view};
use crate::session::first_bar;
use crate::text::{
    chars_of, dec, has_prefix, join2, parse_bounded, parse_unsigned, parse_unsigned_in, push_char, push_str, push_u64,
    same_text, starts_with, string_from, string_of,
};
use crate::trace::{redact, redact_spec};

verus! {

pub const SESSION_MEMORY_SCHEMA_VERSION: u32 = 1;
pub const DEFAULT_MEMORY_CAPACITY: usize = 16;

#[derive(Clone, Copy, Debug, PartialEq, Eq)]
pub enum MemoryKind {
    Event,
    Note,
    ToolResult,
}

pub open spec fn memory_kind_named(t: Seq<char>) -> Option<MemoryKind> {
    if t == "event"@ {
        Some(MemoryKind::Event)
    } else if t == "note"@ {
        Some(MemoryKind::Note)
    } else if t == "tool-result"@ {
        Some(MemoryKind::ToolResult)
    } else {
        None
    }
}

impl MemoryKind {
    pub open spec fn spec_name(self) -> Seq<char> {
        match self {
            MemoryKind::Event => "event"@,
            MemoryKind::Note => "note"@,
            MemoryKind::ToolResult => "tool-result"@,
        }
    }

    pub fn as_str(self) -> (r: &'static str)
        ensures
            r@ == self.spec_name(),
    {
        match self {
            MemoryKind::Event => "event",
            MemoryKind::Note => "note",
            MemoryKind::ToolResult => "tool-result",
        }
    }

    /// The kind named `name`.
    pub fn parse(name: &str) -> (r: Option<MemoryKind>)
        ensures
            r == memory_kind_named(name@),
            r matches Some(k) ==> k.spec_name() == name@,
    {
        proof {
            reveal_strlit("event");
            reveal_strlit("note");
            reveal_strlit("tool-result");
        }
        if same_text(name, "event") {
            Some(MemoryKind::Event)
        } else if same_text(name, "note") {
            Some(MemoryKind::Note)
        } else if same_text(name, "tool-result") {
            Some(MemoryKind::ToolResult)
        } else {
            None
        }
    }
}

#[derive(Clone, Debug, PartialEq, Eq)]
pub struct MemoryRecord {
    pub id: String,
    pub kind: MemoryKind,
    pub tag: String,
    pub text: String,
    pub seq: u64,
}

#[derive(Clone, Debug, PartialEq, Eq)]
pub enum MemoryError {
    IncompatibleSchema(u32),
    Malformed(&'static str),
}

impl MemoryError {
    /// Human-readable text of the error (its `Display` form).
    pub fn message(&self) -> (r: String)
        ensures
            self matches MemoryError::Malformed(m) ==> r@ == "malformed memory: "@ + m@,
            self matches MemoryError::IncompatibleSchema(v) ==> r@ == "incompatible session memory schema "@ + dec(v as nat),
    {
        match self {
            MemoryError::IncompatibleSchema(v) => {
                let mut m = string_from("incompatible session memory schema ");
                push_u64(&mut m, *v as u64);
                m
            },
            MemoryError::Malformed(m) => join2("malformed memory: ", m),
        }
    }
}

fn copy_record(r: &MemoryRecord) -> (c: MemoryRecord)
    ensures
        c == *r,
{
    MemoryRecord { id: r.id.clone(), kind: r.kind, tag: r.tag.clone(), text: r.text.clone(), seq: r.seq }
}

#[derive(Clone, Debug)]
pub struct SessionMemory {
    pub schema_version: u32,
    pub session_id: String,
    enabled: bool,
    capacity: usize,
    records: Vec<MemoryRecord>,
    next_seq: u64,
    evicted: u64,
    hits: u64,
    misses: u64,
}

/// `n + 1`, or `n` at the top of the range.
pub open spec fn bump(n: u64) -> u64 {
    if n < u64::MAX { (n + 1) as u64 } else { n }
}

fn bumped(n: u64) -> (r: u64)
    ensures
        r == bump(n),
{
    if n < u64::MAX { n + 1 } else { n }
}

/// A record passes the optional kind and tag filters.
pub open spec fn selected(r: MemoryRecord, kind: Option<MemoryKind>, tag: Option<Seq<char>>) -> bool {
    &&& (kind matches Some(k) ==> r.kind == k)
    &&& (tag matches Some(t) ==> r.tag@ == t)
}

/// The newest `limit` records that pass the filters, oldest first.
pub open spec fn newest_selected(rs: Seq<MemoryRecord>, kind: Option<MemoryKind>, tag: Option<Seq<char>>, limit: nat) -> Seq<MemoryRecord>
    decreases rs.len(),
{
    if rs.len() == 0 {
        Seq::empty()
    } else {
        let rest = newest_selected(rs.drop_first(), kind, tag, limit);
        if selected(rs[0], kind, tag) && rest.len() < limit {
            seq![rs[0]] + rest
        } else {
            rest
        }
    }
}

/// A record of kind `kind` (any kind for `None`) and tag `tag` (any tag
/// for `None`).
pub open spec fn wanted(kind: Option<MemoryKind>, tag: Option<Seq<char>>) -> spec_fn(MemoryRecord) -> bool {
    |r: MemoryRecord| (kind matches Some(k) ==> r.kind == k) && (tag matches Some(t) ==> r.tag@ == t)
}

/// The last `limit` entries of `s`, in order.
pub open spec fn last_n<A>(s: Seq<A>, limit: nat) -> Seq<A> {
    if s.len() <= limit { s } else { s.subrange(s.len() - limit, s.len() as int) }
}

/// What retrieval picks from `rs` is, of the records of that kind and tag
/// in their stored order, the last `limit`: every record picked has the
/// kind and tag asked for, and none of the newest of them is left out.
pub proof fn lemma_newest_selected_is_newest_wanted(rs: Seq<MemoryRecord>, kind: Option<MemoryKind>, tag: Option<Seq<char>>, limit: nat)
    ensures
        newest_selected(rs, kind, tag, limit) == last_n(rs.filter(wanted(kind, tag)), limit),
        forall|i: int| 0 <= i < newest_selected(rs, kind, tag, limit).len() ==> {
            let r = #[trigger] newest_selected(rs, kind, tag, limit)[i];
            &&& (kind matches Some(k) ==> r.kind == k)
            &&& (tag matches Some(t) ==> r.tag@ == t)
        },
    decreases rs.len(),
{
    reveal(Seq::filter);
    let p = wanted(kind, tag);
    if rs.len() > 0 {
        let rest = rs.drop_first();
        lemma_newest_selected_is_newest_wanted(rest, kind, tag, limit);
        let head = seq![rs[0]];
        assert(rs =~= head + rest);
        Seq::filter_distributes_over_add(head, rest, p);
        assert(head.drop_last() =~= Seq::<MemoryRecord>::empty());
        assert(Seq::<MemoryRecord>::empty().filter(p) =~= Seq::<MemoryRecord>::empty());
        let g = rest.filter(p);
        let f = rs.filter(p);
        assert(selected(rs[0], kind, tag) == p(rs[0]));
        if p(rs[0]) {
            assert(head.filter(p) =~= head);
            assert(f =~= head + g);
            let back = newest_selected(rest, kind, tag, limit);
            if back.len() < limit {
                assert(back =~= g);
                assert(newest_selected(rs, kind, tag, limit) =~= last_n(f, limit));
            } else {
                assert(last_n(f, limit) =~= last_n(g, limit));
            }
        } else {
            assert(head.filter(p) =~= Seq::<MemoryRecord>::empty());
            assert(f =~= g);
        }
    }
    let out = newest_selected(rs, kind, tag, limit);
    let f = rs.filter(p);
    assert forall|i: int| 0 <= i < out.len() implies p(#[trigger] out[i]) by {
        if f.len() <= limit {
            rs.lemma_filter_pred(p, i);
        } else {
            rs.lemma_filter_pred(p, f.len() - limit + i);
        }
    }
}

/// Escaping of tags and texts in the canonical form.
pub open spec fn mem_esc_char(c: char) -> Seq<char> {
    if c == '\\' {
        seq!['\\', '\\']
    } else if c == '\n' {
        seq!['\\', 'n']
    } else if c == '|' {
        seq!['\\', '|']
    } else {
        seq![c]
    }
}

pub open spec fn mem_esc(s: Seq<char>) -> Seq<char>
    decreases s.len(),
{
    if s.len() == 0 {
        Seq::empty()
    } else {
        mem_esc(s.drop_last()) + mem_esc_char(s.last())
    }
}

fn escape_mem_text(s: &str) -> (r: String)
    ensures
        r@ == mem_esc(s@),
{
    let cs = chars_of(s);
    let mut out = String::new();
    let mut i: usize = 0;
    while i < cs.len()
        invariant
            cs@ == s@,
            i <= cs.len(),
            out@ == mem_esc(cs@.subrange(0, i as int)),
        decreases cs.len() - i,
    {
        let c = cs[i];
        assert(cs@.subrange(0, i + 1).drop_last() =~= cs@.subrange(0, i as int));
        if c == '\\' {
            push_char(&mut out, '\\');
            push_char(&mut out, '\\');
        } else if c == '\n' {
            push_char(&mut out, '\\');
            push_char(&mut out, 'n');
        } else if c == '|' {
            push_char(&mut out, '\\');
            push_char(&mut out, '|');
        } else {
            push_char(&mut out, c);
        }
        i = i + 1;
        assert(out@ =~= mem_esc(cs@.subrange(0, i as int)));
    }
    assert(cs@.subrange(0, cs.len() as int) =~= s@);
    out
}

/// Undoing the escaping: `\n`, `\|` and `\\` are decoded; any other
/// backslash stays as it is.
pub open spec fn mem_unesc(s: Seq<char>) -> Seq<char>
    decreases s.len(),
{
    if s.len() == 0 {
        Seq::empty()
    } else if s[0] == '\\' && s.len() >= 2 {
        let c = s[1];
        (if c == 'n' {
            seq!['\n']
        } else if c == '|' {
            seq!['|']
        } else if c == '\\' {
            seq!['\\']
        } else {
            seq!['\\', c]
        }) + mem_unesc(s.subrange(2, s.len() as int))
    } else {
        seq![s[0]] + mem_unesc(s.drop_first())
    }
}

fn unescape_mem_text(cs: &Vec<char>, from: usize, to: usize) -> (r: String)
    requires
        from <= to <= cs.len(),
    ensures
        r@ == mem_unesc(cs@.subrange(from as int, to as int)),
{
    let mut out = String::new();
    let mut i = from;
    assert(cs@.subrange(from as int, to as int) =~= cs@.subrange(i as int, to as int));
    while i < to
        invariant
            from <= i <= to <= cs.len(),
            mem_unesc(cs@.subrange(from as int, to as int)) == out@ + mem_unesc(cs@.subrange(i as int, to as int)),
        decreases to - i,
    {
        let ghost rest = cs@.subrange(i as int, to as int);
        let ghost before = out@;
        if cs[i] == '\\' && to - i >= 2 {
            let c = cs[i + 1];
            if c == 'n' {
                push_char(&mut out, '\n');
            } else if c == '|' {
                push_char(&mut out, '|');
            } else if c == '\\' {
                push_char(&mut out, '\\');
            } else {
                push_char(&mut out, '\\');
                push_char(&mut out, c);
            }
            assert(rest.subrange(2, rest.len() as int) =~= cs@.subrange(i + 2, to as int));
            i = i + 2;
        } else {
            push_char(&mut out, cs[i]);
            assert(rest.drop_first() =~= cs@.subrange(i + 1, to as int));
            i = i + 1;
        }
        assert(mem_unesc(cs@.subrange(from as int, to as int)) =~= out@ + mem_unesc(cs@.subrange(i as int, to as int)));
    }
    assert(cs@.subrange(i as int, to as int) =~= Seq::<char>::empty());
    assert(out@ + Seq::<char>::empty() =~= out@);
    out
}

pub open spec fn record_text(r: MemoryRecord) -> Seq<char> {
    dec(r.seq as nat) + "|"@ + r.kind.spec_name() + "|"@ + mem_esc(r.tag@) + "|"@ + mem_esc(r.text@) + "|"@ + r.id@ + "\n"@
}

pub open spec fn records_text(rs: Seq<MemoryRecord>, n: nat) -> Seq<char>
    decreases n,
{
    if n == 0 || n > rs.len() {
        Seq::empty()
    } else {
        records_text(rs, (n - 1) as nat) + record_text(rs[n - 1])
    }
}

/// A header line `prefix<number>` with the number at most `max`.
pub open spec fn header_value(line: Seq<char>, prefix: Seq<char>, max: nat) -> Option<nat> {
    if has_prefix(line, prefix) {
        parse_bounded(line.subrange(prefix.len() as int, line.len() as int), max)
    } else {
        None
    }
}

/// What a record holds: sequence number, kind, tag, text and id.
pub type RecordView = (u64, MemoryKind, Seq<char>, Seq<char>, Seq<char>);

pub open spec fn record_view(r: MemoryRecord) -> RecordView {
    (r.seq, r.kind, r.tag@, r.text@, r.id@)
}

pub open spec fn records_view(rs: Seq<MemoryRecord>) -> Seq<RecordView> {
    rs.map_values(|r: MemoryRecord| record_view(r))
}

/// One record line `seq|kind|tag|text|id`, split at its first four `|`;
/// missing trailing parts are empty.
pub open spec fn record_line(l: Seq<char>) -> Result<RecordView, Seq<char>> {
    let a = first_bar(l, 0);
    match parse_bounded(l.subrange(0, a), u64::MAX as nat) {
        None => Err("bad seq"@),
        Some(seq) => if a >= l.len() {
            Err("bad kind"@)
        } else {
            let b = first_bar(l, a + 1);
            match memory_kind_named(l.subrange(a + 1, b)) {
                None => Err("bad kind"@),
                Some(k) => if b >= l.len() {
                    Ok((seq as u64, k, Seq::empty(), Seq::empty(), Seq::empty()))
                } else {
                    let c = first_bar(l, b + 1);
                    let tag = mem_unesc(l.subrange(b + 1, c));
                    if c >= l.len() {
                        Ok((seq as u64, k, tag, Seq::empty(), Seq::empty()))
                    } else {
                        let d = first_bar(l, c + 1);
                        let text = mem_unesc(l.subrange(c + 1, d));
                        if d >= l.len() {
                            Ok((seq as u64, k, tag, text, Seq::empty()))
                        } else {
                            Ok((seq as u64, k, tag, text, l.subrange(d + 1, l.len() as int)))
                        }
                    }
                },
            }
        },
    }
}

/// The records of lines 4 up to `n` (empty lines skipped), or the first
/// refusal.
pub open spec fn records_read(ls: Seq<Seq<char>>, n: nat) -> Result<Seq<RecordView>, Seq<char>>
    decreases n,
{
    if n <= 4 || n > ls.len() {
        Ok(Seq::empty())
    } else {
        match records_read(ls, (n - 1) as nat) {
            Err(m) => Err(m),
            Ok(rs) => if ls[n - 1].len() == 0 {
                Ok(rs)
            } else {
                match record_line(ls[n - 1]) {
                    Err(m) => Err(m),
                    Ok(r) => Ok(rs.push(r)),
                }
            },
        }
    }
}

/// The largest sequence number among the records, or 0.
pub open spec fn max_seq_of(rs: Seq<RecordView>) -> u64
    decreases rs.len(),
{
    if rs.len() == 0 {
        0
    } else {
        let m = max_seq_of(rs.drop_last());
        if rs.last().0 > m { rs.last().0 } else { m }
    }
}

/// The memory the header lines and records describe.
pub open spec fn memory_loaded(m: SessionMemory, ls: Seq<Seq<char>>, rs: Seq<RecordView>) -> bool {
    &&& m.spec_schema() == SESSION_MEMORY_SCHEMA_VERSION
    &&& m.spec_session() == ls[1].subrange(8, ls[1].len() as int)
    &&& m.spec_enabled() == (ls[2].subrange(8, ls[2].len() as int) == "1"@)
    &&& m.spec_capacity() as nat == (match header_value(ls[3], "capacity="@, usize::MAX as nat) {
        Some(c) => if c >= 1 { c } else { 1 },
        None => 1,
    })
    &&& records_view(m.spec_records()) == rs
    &&& m.spec_next_seq() == bump(max_seq_of(rs))
    &&& m.spec_evicted() == 0 && m.spec_hits() == 0 && m.spec_misses() == 0
}

impl SessionMemory {
    pub closed spec fn spec_schema(self) -> u32 {
        self.schema_version
    }

    pub closed spec fn spec_session(self) -> Seq<char> {
        self.session_id@
    }

    pub closed spec fn spec_enabled(self) -> bool {
        self.enabled
    }

    pub closed spec fn spec_capacity(self) -> usize {
        self.capacity
    }

    pub closed spec fn spec_records(self) -> Seq<MemoryRecord> {
        self.records@
    }

    pub closed spec fn spec_next_seq(self) -> u64 {
        self.next_seq
    }

    pub closed spec fn spec_evicted(self) -> u64 {
        self.evicted
    }

    pub closed spec fn spec_hits(self) -> u64 {
        self.hits
    }

    pub closed spec fn spec_misses(self) -> u64 {
        self.misses
    }

    /// The canonical text of the memory.
    pub closed spec fn spec_text(self) -> Seq<char> {
        "auralis_session_memory="@ + dec(self.schema_version as nat) + "\n"@ + "session="@ + self.session_id@ + "\n"@
            + "enabled="@ + (if self.enabled { "1"@ } else { "0"@ }) + "\n"@ + "capacity="@ + dec(self.capacity as nat)
            + "\n"@ + records_text(self.records@, self.records@.len())
    }

    /// An empty, enabled memory of at least one record.
    pub fn new(session_id: &str, capacity: usize) -> (m: SessionMemory)
        ensures
            m.spec_schema() == SESSION_MEMORY_SCHEMA_VERSION,
            m.spec_session() == session_id@,
            m.spec_enabled(),
            m.spec_capacity() == (if capacity >= 1 { capacity } else { 1 }),
            m.spec_records().len() == 0,
            m.spec_next_seq() == 1,
            m.spec_evicted() == 0 && m.spec_hits() == 0 && m.spec_misses() == 0,
    {
        SessionMemory {
            schema_version: SESSION_MEMORY_SCHEMA_VERSION,
            session_id: string_from(session_id),
            enabled: true,
            capacity: if capacity >= 1 { capacity } else { 1 },
            records: Vec::new(),
            next_seq: 1,
            evicted: 0,
            hits: 0,
            misses: 0,
        }
    }

    /// A memory that keeps nothing.
    pub fn off(session_id: &str) -> (m: SessionMemory)
        ensures
            m.spec_schema() == SESSION_MEMORY_SCHEMA_VERSION,
            m.spec_session() == session_id@,
            !m.spec_enabled(),
            m.spec_capacity() == DEFAULT_MEMORY_CAPACITY,
            m.spec_records().len() == 0,
            m.spec_next_seq() == 1,
            m.spec_evicted() == 0 && m.spec_hits() == 0 && m.spec_misses() == 0,
    {
        let mut m = SessionMemory::new(session_id, DEFAULT_MEMORY_CAPACITY);
        m.enabled = false;
        m
    }

    pub fn enabled(&self) -> (r: bool)
        ensures
            r == self.spec_enabled(),
    {
        self.enabled
    }

    pub fn len(&self) -> (r: usize)
        ensures
            r == self.spec_records().len(),
    {
        self.records.len()
    }

    pub fn evicted(&self) -> (r: u64)
        ensures
            r == self.spec_evicted(),
    {
        self.evicted
    }

    pub fn hits(&self) -> (r: u64)
        ensures
            r == self.spec_hits(),
    {
        self.hits
    }

    pub fn misses(&self) -> (r: u64)
        ensures
            r == self.spec_misses(),
    {
        self.misses
    }

    /// Stores a record with the next sequence number and the redacted
    /// text, first evicting the oldest record when the memory is full.
    /// Memory that is off keeps nothing.
    pub fn remember(&mut self, kind: MemoryKind, tag: &str, text: &str) -> (r: Option<MemoryRecord>)
        ensures
            final(self).spec_schema() == old(self).spec_schema(),
            final(self).spec_session() == old(self).spec_session(),
            final(self).spec_enabled() == old(self).spec_enabled(),
            final(self).spec_capacity() == old(self).spec_capacity(),
            final(self).spec_hits() == old(self).spec_hits(),
            final(self).spec_misses() == old(self).spec_misses(),
            !old(self).spec_enabled() ==> r is None && final(self).spec_records() == old(self).spec_records()
                && final(self).spec_next_seq() == old(self).spec_next_seq()
                && final(self).spec_evicted() == old(self).spec_evicted(),
            old(self).spec_enabled() ==> (r matches Some(rec) && {
                let full = old(self).spec_records().len() >= old(self).spec_capacity() && old(self).spec_records().len() > 0;
                &&& rec.seq == old(self).spec_next_seq()
                &&& rec.kind == kind
                &&& rec.tag@ == tag@
                &&& rec.text@ == redact_spec(text@)
                &&& rec.id@ == old(self).spec_session() + "-m"@ + dec(old(self).spec_next_seq() as nat)
                &&& final(self).spec_records() == (if full { old(self).spec_records().drop_first() } else { old(self).spec_records() }).push(rec)
                &&& final(self).spec_evicted() == (if full { bump(old(self).spec_evicted()) } else { old(self).spec_evicted() })
                &&& final(self).spec_next_seq() == bump(old(self).spec_next_seq())
            }),
            old(self).spec_records().len() <= old(self).spec_capacity() && 0 < old(self).spec_capacity()
                ==> final(self).spec_records().len() <= final(self).spec_capacity(),
            final(self).spec_records().len() <= old(self).spec_records().len() + 1,
    {
        if !self.enabled {
            return None;
        }
        let full = self.records.len() >= self.capacity && self.records.len() > 0;
        if full {
            self.records.remove(0);
            self.evicted = bumped(self.evicted);
        }
        let mut id = join2(self.session_id.as_str(), "-m");
        push_u64(&mut id, self.next_seq);
        let record = MemoryRecord {
            id,
            kind,
            tag: string_from(tag),
            text: redact(text),
            seq: self.next_seq,
        };
        self.next_seq = bumped(self.next_seq);
        let kept = copy_record(&record);
        self.records.push(kept);
        Some(record)
    }

    /// The newest `limit` records of the given kind and tag, oldest first.
    /// A non-empty answer counts as a hit, an empty one as a miss; memory
    /// that is off always misses.
    pub fn retrieve(&mut self, kind: Option<MemoryKind>, tag: Option<&str>, limit: usize) -> (r: Vec<MemoryRecord>)
        ensures
            final(self).spec_schema() == old(self).spec_schema(),
            final(self).spec_session() == old(self).spec_session(),
            final(self).spec_enabled() == old(self).spec_enabled(),
            final(self).spec_capacity() == old(self).spec_capacity(),
            final(self).spec_records() == old(self).spec_records(),
            final(self).spec_next_seq() == old(self).spec_next_seq(),
            final(self).spec_evicted() == old(self).spec_evicted(),
            !old(self).spec_enabled() ==> r@.len() == 0,
            old(self).spec_enabled() ==> r@ == newest_selected(old(self).spec_records(), kind,
                match tag { Some(t) => Some(t@), None => None }, limit as nat),
            old(self).spec_enabled() ==> r@ == last_n(old(self).spec_records().filter(wanted(kind,
                match tag { Some(t) => Some(t@), None => None })), limit as nat),
            forall|i: int| 0 <= i < r@.len() ==> (kind matches Some(k) ==> (#[trigger] r@[i]).kind == k)
                && (tag matches Some(t) ==> r@[i].tag@ == t@),
            r@.len() == 0 ==> final(self).spec_misses() == bump(old(self).spec_misses()) && final(self).spec_hits() == old(self).spec_hits(),
            r@.len() > 0 ==> final(self).spec_hits() == bump(old(self).spec_hits()) && final(self).spec_misses() == old(self).spec_misses(),
    {
        if !self.enabled {
            self.misses = bumped(self.misses);
            return Vec::new();
        }
        let ghost tg: Option<Seq<char>> = match tag { Some(t) => Some(t@), None => None };
        let mut out: Vec<MemoryRecord> = Vec::new();
        let mut i = self.records.len();
        assert(self.records@.subrange(i as int, i as int) =~= Seq::<MemoryRecord>::empty());
        while i > 0
            invariant
                i <= self.records.len(),
                out@ == newest_selected(self.records@.subrange(i as int, self.records@.len() as int), kind, tg, limit as nat),
                tg == match tag { Some(t) => Some(t@), None => None::<Seq<char>> },
            decreases i,
        {
            let ghost suffix = self.records@.subrange(i - 1, self.records@.len() as int);
            assert(suffix.drop_first() =~= self.records@.subrange(i as int, self.records@.len() as int));
            let rec = &self.records[i - 1];
            let kind_ok = match kind {
                Some(k) => match (k, rec.kind) {
                    (MemoryKind::Event, MemoryKind::Event) => true,
                    (MemoryKind::Note, MemoryKind::Note) => true,
                    (MemoryKind::ToolResult, MemoryKind::ToolResult) => true,
                    _ => false,
                },
                None => true,
            };
            let tag_ok = match tag {
                Some(t) => same_text(rec.tag.as_str(), t),
                None => true,
            };
            if kind_ok && tag_ok && out.len() < limit {
                out.insert(0, copy_record(rec));
                assert(out@ =~= seq![suffix[0]] + newest_selected(suffix.drop_first(), kind, tg, limit as nat));
            }
            i = i - 1;
        }
        assert(self.records@.subrange(0, self.records@.len() as int) =~= self.records@);
        proof { lemma_newest_selected_is_newest_wanted(self.records@, kind, tg, limit as nat); }
        if out.len() == 0 {
            self.misses = bumped(self.misses);
        } else {
            self.hits = bumped(self.hits);
        }
        out
    }

    /// Forgets every record and zeroes the counters.
    pub fn reset(&mut self)
        ensures
            final(self).spec_schema() == old(self).spec_schema(),
            final(self).spec_session() == old(self).spec_session(),
            final(self).spec_enabled() == old(self).spec_enabled(),
            final(self).spec_capacity() == old(self).spec_capacity(),
            final(self).spec_records().len() == 0,
            final(self).spec_next_seq() == 1,
            final(self).spec_evicted() == 0 && final(self).spec_hits() == 0 && final(self).spec_misses() == 0,
    {
        self.records = Vec::new();
        self.next_seq = 1;
        self.evicted = 0;
        self.hits = 0;
        self.misses = 0;
    }

    /// Header lines, then one `seq|kind|tag|text|id` line per record, oldest
    /// first.
    #[verifier::spinoff_prover]
    pub fn canonical(&self) -> (r: String)
        ensures
            r@ == self.spec_text(),
    {
        let mut out = string_from("auralis_session_memory=");
        push_u64(&mut out, self.schema_version as u64);
        push_str(&mut out, "\n");
        push_str(&mut out, "session=");
        push_str(&mut out, self.session_id.as_str());
        push_str(&mut out, "\n");
        push_str(&mut out, "enabled=");
        push_str(&mut out, if self.enabled { "1" } else { "0" });
        push_str(&mut out, "\n");
        push_str(&mut out, "capacity=");
        push_u64(&mut out, self.capacity as u64);
        push_str(&mut out, "\n");
        let ghost head = out@;
        let mut i: usize = 0;
        while i < self.records.len()
            invariant
                i <= self.records.len(),
                out@ == head + records_text(self.records@, i as nat),
            decreases self.records.len() - i,
        {
            let rec = &self.records[i];
            let ghost before = out@;
            push_u64(&mut out, rec.seq);
            push_str(&mut out, "|");
            push_str(&mut out, rec.kind.as_str());
            push_str(&mut out, "|");
            push_str(&mut out, escape_mem_text(rec.tag.as_str()).as_str());
            push_str(&mut out, "|");
            push_str(&mut out, escape_mem_text(rec.text.as_str()).as_str());
            push_str(&mut out, "|");
            push_str(&mut out, rec.id.as_str());
            push_str(&mut out, "\n");
            assert(out@ =~= before + record_text(*rec));
            i = i + 1;
            assert(out@ =~= head + records_text(self.records@, i as nat));
        }
        assert(out@ =~= self.spec_text());
        out
    }

    /// Reads a memory from its canonical text. The first line must be the
    /// schema header of this version; then session, enabled and capacity;
    /// then record lines.
    pub fn load(blob: &str) -> (r: Result<SessionMemory, MemoryError>)
        ensures
            header_value(lines_of(blob@)[0], "auralis_session_memory="@, u32::MAX as nat) is None ==>
                r == Err::<SessionMemory, MemoryError>(MemoryError::Malformed("missing schema")),
            (header_value(lines_of(blob@)[0], "auralis_session_memory="@, u32::MAX as nat) matches Some(v) && v != 1) ==>
                r == Err::<SessionMemory, MemoryError>(MemoryError::IncompatibleSchema(
                    header_value(lines_of(blob@)[0], "auralis_session_memory="@, u32::MAX as nat)->0 as u32)),
            header_value(lines_of(blob@)[0], "auralis_session_memory="@, u32::MAX as nat) == Some(1nat) ==> {
                let ls = lines_of(blob@);
                if ls.len() < 2 || !has_prefix(ls[1], "session="@) {
                    r == Err::<SessionMemory, MemoryError>(MemoryError::Malformed("missing session"))
                } else if ls.len() < 3 || !has_prefix(ls[2], "enabled="@) {
                    r == Err::<SessionMemory, MemoryError>(MemoryError::Malformed("missing enabled"))
                } else if ls.len() < 4 || header_value(ls[3], "capacity="@, usize::MAX as nat) is None {
                    r == Err::<SessionMemory, MemoryError>(MemoryError::Malformed("missing capacity"))
                } else {
                    match records_read(ls, ls.len()) {
                        Err(m) => r matches Err(MemoryError::Malformed(x)) && x@ == m,
                        Ok(rs) => r matches Ok(mem) && memory_loaded(mem, ls, rs),
                    }
                }
            },
    {
        let lines = split_lines(blob);
        let ghost ls = lines_of(blob@);
        proof { crate::protocol_text::lemma_pieces_nonempty(blob@); }
        assert(strings_view(lines@)[0] == lines@[0]@);
        let schema = match header_number(lines[0].as_str(), "auralis_session_memory=", 4294967295u64) {
            Some(v) => v as u32,
            None => {
                return Err(MemoryError::Malformed("missing schema"));
            },
        };
        if schema != SESSION_MEMORY_SCHEMA_VERSION {
            return Err(MemoryError::IncompatibleSchema(schema));
        }
        if lines.len() < 2 || !starts_with(lines[1].as_str(), "session=") {
            return Err(MemoryError::Malformed("missing session"));
        }
        assert(strings_view(lines@)[1] == lines@[1]@);
        proof { reveal_strlit("session="); reveal_strlit("enabled="); reveal_strlit("1"); }
        let line1 = chars_of(lines[1].as_str());
        let session = string_of(&line1, 8, line1.len());
        if lines.len() < 3 || !starts_with(lines[2].as_str(), "enabled=") {
            return Err(MemoryError::Malformed("missing enabled"));
        }
        assert(strings_view(lines@)[2] == lines@[2]@);
        let line2 = chars_of(lines[2].as_str());
        let enabled_text = string_of(&line2, 8, line2.len());
        let enabled = same_text(enabled_text.as_str(), "1");
        if lines.len() < 4 {
            return Err(MemoryError::Malformed("missing capacity"));
        }
        assert(strings_view(lines@)[3] == lines@[3]@);
        let capacity = match header_number(lines[3].as_str(), "capacity=", usize::MAX as u64) {
            Some(c) => c as usize,
            None => {
                return Err(MemoryError::Malformed("missing capacity"));
            },
        };
        let mut memory = if enabled {
            SessionMemory::new(session.as_str(), capacity)
        } else {
            SessionMemory::off(session.as_str())
        };
        memory.capacity = if capacity >= 1 { capacity } else { 1 };
        let mut max_seq: u64 = 0;
        let mut k: usize = 4;
        assert(records_view(memory.records@) =~= Seq::<RecordView>::empty());
        while k < lines.len()
            invariant
                4 <= k <= lines.len(),
                ls == lines_of(blob@),
                strings_view(lines@) == ls,
                lines@.len() == ls.len(),
                header_value(ls[0], "auralis_session_memory="@, u32::MAX as nat) == Some(1nat),
                ls.len() >= 4,
                has_prefix(ls[1], "session="@),
                has_prefix(ls[2], "enabled="@),
                header_value(ls[3], "capacity="@, usize::MAX as nat) == Some(capacity as nat),
                session@ == ls[1].subrange(8, ls[1].len() as int),
                enabled == (ls[2].subrange(8, ls[2].len() as int) == "1"@),
                memory.schema_version == SESSION_MEMORY_SCHEMA_VERSION,
                memory.session_id@ == session@,
                memory.enabled == enabled,
                memory.capacity == (if capacity >= 1 { capacity } else { 1 }),
                memory.evicted == 0 && memory.hits == 0 && memory.misses == 0,
                records_read(ls, k as nat) == Ok::<Seq<RecordView>, Seq<char>>(records_view(memory.records@)),
                max_seq == max_seq_of(records_view(memory.records@)),
            decreases lines.len() - k,
        {
            assert(strings_view(lines@)[k as int] == lines@[k as int]@);
            let line = chars_of(lines[k].as_str());
            if line.len() > 0 {
                let rec = match parse_record_line(&line) {
                    Ok(rec) => rec,
                    Err(e) => {
                        proof { lemma_records_stay_failed(ls, k as nat + 1, ls.len()); }
                        return Err(e);
                    },
                };
                let ghost before = records_view(memory.records@);
                if rec.seq > max_seq {
                    max_seq = rec.seq;
                }
                memory.records.push(rec);
                assert(records_view(memory.records@) =~= before.push(record_view(rec)));
                assert(records_view(memory.records@).drop_last() =~= before);
            }
            k = k + 1;
        }
        memory.next_seq = bumped(max_seq);
        Ok(memory)
    }
}

/// The number after `prefix` on a header line, at most `max`.
fn header_number(line: &str, prefix: &str, max: u64) -> (r: Option<u64>)
    ensures
        r == (match header_value(line@, prefix@, max as nat) {
            Some(v) => Some(v as u64),
            None => None::<u64>,
        }),
{
    if !starts_with(line, prefix) {
        return None;
    }
    let cs = chars_of(line);
    let n = prefix.unicode_len();
    parse_unsigned_in(&cs, n, cs.len(), max)
}

/// Position of the next `|` in `cs[from..]`, or `cs.len()`.
fn next_bar(cs: &Vec<char>, from: usize) -> (r: usize)
    requires
        from <= cs.len(),
    ensures
        from <= r <= cs.len(),
        forall|j: int| from <= j < r ==> cs@[j] != '|',
        r < cs.len() ==> cs@[r as int] == '|',
{
    let mut i = from;
    while i < cs.len()
        invariant
            from <= i <= cs.len(),
            forall|j: int| from <= j < i ==> cs@[j] != '|',
        decreases cs.len() - i,
    {
        if cs[i] == '|' {
            return i;
        }
        i = i + 1;
    }
    i
}

/// Once a record line is refused, the read stays refused.
proof fn lemma_records_stay_failed(ls: Seq<Seq<char>>, k: nat, n: nat)
    requires
        k <= n <= ls.len(),
        records_read(ls, k) is Err,
    ensures
        records_read(ls, n) == records_read(ls, k),
    decreases n - k,
{
    if k < n {
        lemma_records_stay_failed(ls, k, (n - 1) as nat);
    }
}

/// The first `|` from `from` on is at `r` (or there is none and `r` is the
/// length).
proof fn lemma_first_bar_at(t: Seq<char>, from: int, r: int)
    requires
        0 <= from <= r <= t.len(),
        forall|j: int| from <= j < r ==> t[j] != '|',
        r < t.len() ==> t[r] == '|',
    ensures
        first_bar(t, from) == r,
    decreases r - from,
{
    if from < r {
        lemma_first_bar_at(t, from + 1, r);
    }
}

/// One record line: `seq|kind|tag|text|id`, where the id takes the rest of
/// the line and missing trailing parts are empty.
fn parse_record_line(cs: &Vec<char>) -> (r: Result<MemoryRecord, MemoryError>)
    ensures
        match record_line(cs@) {
            Ok(v) => r matches Ok(x) && record_view(x) == v,
            Err(m) => r matches Err(MemoryError::Malformed(x)) && x@ == m,
        },
{
    proof {
        reveal_strlit("bad seq");
        reveal_strlit("bad kind");
    }
    let a = next_bar(cs, 0);
    proof { lemma_first_bar_at(cs@, 0, a as int); }
    let seq = match parse_unsigned_in(cs, 0, a, u64::MAX) {
        Some(v) => v,
        None => {
            return Err(MemoryError::Malformed("bad seq"));
        },
    };
    if a == cs.len() {
        return Err(MemoryError::Malformed("bad kind"));
    }
    let b = next_bar(cs, a + 1);
    proof { lemma_first_bar_at(cs@, a + 1, b as int); }
    let kind_text = string_of(cs, a + 1, b);
    let kind = match MemoryKind::parse(kind_text.as_str()) {
        Some(k) => k,
        None => {
            return Err(MemoryError::Malformed("bad kind"));
        },
    };
    let (tag, text, id) = if b == cs.len() {
        (String::new(), String::new(), String::new())
    } else {
        let c = next_bar(cs, b + 1);
        proof { lemma_first_bar_at(cs@, b + 1, c as int); }
        let tag = unescape_mem_text(cs, b + 1, c);
        if c == cs.len() {
            (tag, String::new(), String::new())
        } else {
            let d = next_bar(cs, c + 1);
            proof { lemma_first_bar_at(cs@, c + 1, d as int); }
            let text = unescape_mem_text(cs, c + 1, d);
            if d == cs.len() {
                (tag, text, String::new())
            } else {
                (tag, text, string_of(cs, d + 1, cs.len()))
            }
        }
    };
    Ok(MemoryRecord { id, kind, tag, text, seq })
}

// ---------------------------------------------------------------------------
// Reading back a canonical memory
// ---------------------------------------------------------------------------

proof fn lemma_mem_esc_front(x: Seq<char>)
    requires
        x.len() > 0,
    ensures
        mem_esc(x) == mem_esc_char(x[0]) + mem_esc(x.drop_first()),
    decreases x.len(),
{
    if x.len() == 1 {
        assert(x.drop_last() =~= Seq::<char>::empty());
        assert(x.drop_first() =~= Seq::<char>::empty());
        assert(mem_esc(Seq::<char>::empty()) =~= Seq::<char>::empty());
        assert(mem_esc_char(x[0]) + Seq::<char>::empty() =~= mem_esc_char(x[0]));
    } else {
        lemma_mem_esc_front(x.drop_last());
        assert(x.drop_last().drop_first() =~= x.drop_first().drop_last());
        assert(x.drop_first().last() == x.last());
        assert(x.drop_last()[0] == x[0]);
    }
}

/// Undoing the memory escaping gives the text back.
pub proof fn lemma_mem_unesc_esc(x: Seq<char>)
    ensures
        mem_unesc(mem_esc(x)) == x,
    decreases x.len(),
{
    if x.len() == 0 {
        assert(mem_esc(x) =~= Seq::<char>::empty());
    } else {
        lemma_mem_esc_front(x);
        lemma_mem_unesc_esc(x.drop_first());
        let c = x[0];
        let e = mem_esc_char(c);
        let rest = mem_esc(x.drop_first());
        let t = e + rest;
        if c == '\\' || c == '\n' || c == '|' {
            assert(t[0] == '\\');
            assert(t.subrange(2, t.len() as int) =~= rest);
        } else {
            assert(t[0] == c);
            assert(t.drop_first() =~= rest);
        }
        assert(seq![c] + x.drop_first() =~= x);
    }
}

/// Escaped text holds no line break, and a `|` only where the text had one.
proof fn lemma_mem_esc_chars(x: Seq<char>)
    ensures
        crate::reasoning_suite::free_of(mem_esc(x), '\n'),
        crate::reasoning_suite::free_of(x, '|') ==> crate::reasoning_suite::free_of(mem_esc(x), '|'),
        crate::reasoning_suite::free_of(x, '\r') ==> crate::reasoning_suite::free_of(mem_esc(x), '\r'),
        x.len() > 0 ==> mem_esc(x).len() > 0 && (mem_esc(x).last() == '\r' ==> x.last() == '\r'),
    decreases x.len(),
{
    if x.len() > 0 {
        lemma_mem_esc_chars(x.drop_last());
        let a = mem_esc(x.drop_last());
        let e = mem_esc_char(x.last());
        assert forall|i: int| 0 <= i < (a + e).len() implies #[trigger] (a + e)[i] != '\n' by {
            if i < a.len() { assert((a + e)[i] == a[i]); } else { assert((a + e)[i] == e[i - a.len()]); }
        }
        if crate::reasoning_suite::free_of(x, '|') {
            assert(crate::reasoning_suite::free_of(x.drop_last(), '|')) by {
                assert forall|i: int| 0 <= i < x.drop_last().len() implies #[trigger] x.drop_last()[i] != '|' by {
                    assert(x.drop_last()[i] == x[i]);
                }
            }
            assert(x[x.len() - 1] != '|');
            assert forall|i: int| 0 <= i < (a + e).len() implies #[trigger] (a + e)[i] != '|' by {
                if i < a.len() { assert((a + e)[i] == a[i]); } else { assert((a + e)[i] == e[i - a.len()]); }
            }
        }
        if crate::reasoning_suite::free_of(x, '\r') {
            assert(crate::reasoning_suite::free_of(x.drop_last(), '\r')) by {
                assert forall|i: int| 0 <= i < x.drop_last().len() implies #[trigger] x.drop_last()[i] != '\r' by {
                    assert(x.drop_last()[i] == x[i]);
                }
            }
            assert(x[x.len() - 1] != '\r');
            assert forall|i: int| 0 <= i < (a + e).len() implies #[trigger] (a + e)[i] != '\r' by {
                if i < a.len() { assert((a + e)[i] == a[i]); } else { assert((a + e)[i] == e[i - a.len()]); }
            }
        }
        assert((a + e).last() == e.last());
    }
}

pub open spec fn record_line_text(r: MemoryRecord) -> Seq<char> {
    dec(r.seq as nat) + "|"@ + r.kind.spec_name() + "|"@ + mem_esc(r.tag@) + "|"@ + mem_esc(r.text@) + "|"@ + r.id@
}

pub open spec fn enabled_word(b: bool) -> Seq<char> {
    if b { "1"@ } else { "0"@ }
}

/// The lines of a memory's canonical text.
pub open spec fn memory_lines(m: SessionMemory) -> Seq<Seq<char>> {
    seq![
        "auralis_session_memory="@ + dec(m.spec_schema() as nat),
        "session="@ + m.spec_session(),
        "enabled="@ + enabled_word(m.spec_enabled()),
        "capacity="@ + dec(m.spec_capacity() as nat),
    ] + m.spec_records().map_values(|r: MemoryRecord| record_line_text(r))
}

/// A record that reads back from its line: tag and text without `|`, and an
/// id that is a clean line end.
pub open spec fn record_writable(r: MemoryRecord) -> bool {
    &&& crate::reasoning_suite::free_of(r.tag@, '|')
    &&& crate::reasoning_suite::free_of(r.text@, '|')
    &&& crate::protocol_text::clean_line(r.id@)
}

proof fn lemma_joined_push(ls: Seq<Seq<char>>, l: Seq<char>)
    ensures
        crate::protocol_text::joined_lines(ls.push(l)) == crate::protocol_text::joined_lines(ls) + l + seq!['\n'],
{
    assert(ls.push(l).drop_last() =~= ls);
}

proof fn lemma_records_text_lines(rs: Seq<MemoryRecord>, n: nat)
    requires
        n <= rs.len(),
    ensures
        records_text(rs, n) == crate::protocol_text::joined_lines(rs.take(n as int).map_values(|r: MemoryRecord| record_line_text(r))),
    decreases n,
{
    reveal_strlit("\n");
    if n == 0 {
        assert(rs.take(0).map_values(|r: MemoryRecord| record_line_text(r)) =~= Seq::<Seq<char>>::empty());
    } else {
        lemma_records_text_lines(rs, (n - 1) as nat);
        let ls = rs.take(n as int).map_values(|r: MemoryRecord| record_line_text(r));
        assert(ls =~= rs.take(n - 1).map_values(|r: MemoryRecord| record_line_text(r)).push(record_line_text(rs[n - 1])));
        lemma_joined_push(rs.take(n - 1).map_values(|r: MemoryRecord| record_line_text(r)), record_line_text(rs[n - 1]));
        assert(record_text(rs[n - 1]) =~= record_line_text(rs[n - 1]) + seq!['\n']);
    }
}

#[verifier::spinoff_prover]
#[verifier::rlimit(60)]
proof fn lemma_memory_text_lines(m: SessionMemory)
    ensures
        m.spec_text() == crate::protocol_text::joined_lines(memory_lines(m)),
{
    reveal_strlit("\n");
    reveal_strlit("1");
    reveal_strlit("0");
    let rs = m.spec_records();
    let h = seq![
        "auralis_session_memory="@ + dec(m.spec_schema() as nat),
        "session="@ + m.spec_session(),
        "enabled="@ + enabled_word(m.spec_enabled()),
        "capacity="@ + dec(m.spec_capacity() as nat),
    ];
    let ev = rs.map_values(|r: MemoryRecord| record_line_text(r));
    lemma_records_text_lines(rs, rs.len());
    assert(rs.take(rs.len() as int) =~= rs);
    crate::protocol_text::lemma_joined_append(h, ev);
    let e0 = Seq::<Seq<char>>::empty();
    assert(crate::protocol_text::joined_lines(e0) =~= Seq::<char>::empty());
    lemma_joined_push(e0, h[0]);
    lemma_joined_push(e0.push(h[0]), h[1]);
    lemma_joined_push(e0.push(h[0]).push(h[1]), h[2]);
    lemma_joined_push(e0.push(h[0]).push(h[1]).push(h[2]), h[3]);
    assert(h =~= e0.push(h[0]).push(h[1]).push(h[2]).push(h[3]));
    assert(m.spec_text() =~= crate::protocol_text::joined_lines(h) + records_text(rs, rs.len()));
}

proof fn lemma_memory_kind_names(k: MemoryKind)
    ensures
        memory_kind_named(k.spec_name()) == Some(k),
        crate::reasoning_suite::free_of(k.spec_name(), '|'),
        crate::reasoning_suite::free_of(k.spec_name(), '\n'),
        crate::reasoning_suite::free_of(k.spec_name(), '\r'),
{
    reveal_strlit("event");
    reveal_strlit("note");
    reveal_strlit("tool-result");
    assert("event"@.len() == 5 && "note"@.len() == 4 && "tool-result"@.len() == 11);
}

proof fn lemma_free_concat(a: Seq<char>, b: Seq<char>, c: char)
    requires
        crate::reasoning_suite::free_of(a, c),
        crate::reasoning_suite::free_of(b, c),
    ensures
        crate::reasoning_suite::free_of(a + b, c),
{
    assert forall|q: int| 0 <= q < (a + b).len() implies #[trigger] (a + b)[q] != c by {
        if q < a.len() { assert((a + b)[q] == a[q]); } else { assert((a + b)[q] == b[q - a.len()]); }
    }
}

/// A record line reads back as its record.
#[verifier::spinoff_prover]
#[verifier::rlimit(60)]
proof fn lemma_record_line_reads(r: MemoryRecord)
    requires
        record_writable(r),
    ensures
        record_line(record_line_text(r)) == Ok::<RecordView, Seq<char>>(record_view(r)),
        crate::protocol_text::clean_line(record_line_text(r)),
        record_line_text(r).len() > 0,
{
    reveal_strlit("|");
    let d = dec(r.seq as nat);
    let name = r.kind.spec_name();
    let et = mem_esc(r.tag@);
    let ex = mem_esc(r.text@);
    let bar = seq!['|'];
    let l = d + bar + name + bar + et + bar + ex + bar + r.id@;
    assert(l =~= record_line_text(r));
    crate::text::lemma_dec_digits(r.seq as nat);
    crate::text::lemma_parse_dec(r.seq as nat);
    lemma_memory_kind_names(r.kind);
    lemma_mem_esc_chars(r.tag@);
    lemma_mem_esc_chars(r.text@);
    lemma_mem_unesc_esc(r.tag@);
    lemma_mem_unesc_esc(r.text@);
    let a = d.len() as int;
    let b = a + 1 + name.len();
    let c = b + 1 + et.len();
    let e = c + 1 + ex.len();
    assert forall|q: int| 0 <= q < a implies l[q] != '|' && l[q] != '\n' && l[q] != '\r' by {
        assert(l[q] == d[q]);
        assert(crate::text::is_digit(d[q]));
    }
    assert(l[a] == '|');
    lemma_first_bar_at(l, 0, a);
    assert forall|q: int| a + 1 <= q < b implies l[q] != '|' by {
        assert(l[q] == name[q - a - 1]);
    }
    assert(l[b] == '|');
    lemma_first_bar_at(l, a + 1, b);
    assert forall|q: int| b + 1 <= q < c implies l[q] != '|' by {
        assert(l[q] == et[q - b - 1]);
    }
    assert(l[c] == '|');
    lemma_first_bar_at(l, b + 1, c);
    assert forall|q: int| c + 1 <= q < e implies l[q] != '|' by {
        assert(l[q] == ex[q - c - 1]);
    }
    assert(l[e] == '|');
    lemma_first_bar_at(l, c + 1, e);
    assert(l.subrange(0, a) =~= d);
    assert(l.subrange(a + 1, b) =~= name);
    assert(l.subrange(b + 1, c) =~= et);
    assert(l.subrange(c + 1, e) =~= ex);
    assert(l.subrange(e + 1, l.len() as int) =~= r.id@);
    // the line is clean
    assert(crate::reasoning_suite::free_of(d, '\n')) by {
        assert forall|q: int| 0 <= q < d.len() implies #[trigger] d[q] != '\n' by {
            assert(crate::text::is_digit(d[q]));
        }
    }
    assert(crate::reasoning_suite::free_of(bar, '\n'));
    lemma_free_concat(d, bar, '\n');
    lemma_free_concat(d + bar, name, '\n');
    lemma_free_concat(d + bar + name, bar, '\n');
    lemma_free_concat(d + bar + name + bar, et, '\n');
    lemma_free_concat(d + bar + name + bar + et, bar, '\n');
    lemma_free_concat(d + bar + name + bar + et + bar, ex, '\n');
    lemma_free_concat(d + bar + name + bar + et + bar + ex, bar, '\n');
    lemma_free_concat(d + bar + name + bar + et + bar + ex + bar, r.id@, '\n');
    if r.id@.len() > 0 {
        assert(l.last() == r.id@.last());
    } else {
        assert(l.last() == '|');
    }
}

proof fn lemma_memory_prefixes()
    ensures
        crate::reasoning_suite::free_of("auralis_session_memory="@, '\n'),
        crate::reasoning_suite::free_of("session="@, '\n'),
        crate::reasoning_suite::free_of("enabled="@, '\n'),
        crate::reasoning_suite::free_of("capacity="@, '\n'),
        crate::reasoning_suite::free_of("1"@, '\n') && crate::reasoning_suite::free_of("0"@, '\n'),
        "auralis_session_memory="@.len() == 23 && "session="@.len() == 8 && "enabled="@.len() == 8
            && "capacity="@.len() == 9,
        "session="@.last() == '=',
        "1"@.len() == 1 && "0"@.len() == 1 && "1"@ != "0"@,
        "1"@[0] == '1' && "0"@[0] == '0',
{
    reveal_strlit("auralis_session_memory=");
    reveal_strlit("session=");
    reveal_strlit("enabled=");
    reveal_strlit("capacity=");
    reveal_strlit("1");
    reveal_strlit("0");
    assert("1"@[0] != "0"@[0]);
}

proof fn lemma_dec_free(n: nat)
    ensures
        crate::reasoning_suite::free_of(dec(n), '\n'),
        dec(n).len() > 0 && dec(n).last() != '\r',
{
    crate::text::lemma_dec_digits(n);
    assert forall|q: int| 0 <= q < dec(n).len() implies #[trigger] dec(n)[q] != '\n' by {
        assert(crate::text::is_digit(dec(n)[q]));
    }
    assert(crate::text::is_digit(dec(n)[dec(n).len() - 1]));
}

/// Records read from the lines of a canonical memory, `j` records in.
proof fn lemma_records_read_lines(m: SessionMemory, j: nat)
    requires
        j <= m.spec_records().len(),
        forall|i: int| 0 <= i < m.spec_records().len() ==> record_writable(#[trigger] m.spec_records()[i]),
    ensures
        records_read(memory_lines(m), 4 + j) == Ok::<Seq<RecordView>, Seq<char>>(records_view(m.spec_records().take(j as int))),
    decreases j,
{
    let ls = memory_lines(m);
    let rs = m.spec_records();
    if j == 0 {
        assert(records_view(rs.take(0)) =~= Seq::<RecordView>::empty());
    } else {
        lemma_records_read_lines(m, (j - 1) as nat);
        let r = rs[j - 1];
        assert(record_writable(rs[j - 1]));
        lemma_record_line_reads(r);
        assert(ls[4 + j - 1] == record_line_text(r));
        assert(records_view(rs.take(j as int)) =~= records_view(rs.take(j - 1)).push(record_view(r)));
    }
}

proof fn lemma_records_read_push(ls: Seq<Seq<char>>, extra: Seq<char>, n: nat)
    requires
        n <= ls.len(),
    ensures
        records_read(ls.push(extra), n) == records_read(ls, n),
    decreases n,
{
    if n > 0 {
        lemma_records_read_push(ls, extra, (n - 1) as nat);
        assert(ls.push(extra)[n - 1] == ls[n - 1]);
    }
}

/// Loading a canonical memory gives back its session, switch, capacity and
/// records, for a memory of this schema with a capacity of at least one,
/// a session id that is a clean line, and records whose tags and texts hold
/// no `|` and whose ids are clean line ends.
pub proof fn lemma_memory_roundtrip(m: SessionMemory)
    requires
        m.spec_schema() == SESSION_MEMORY_SCHEMA_VERSION,
        m.spec_capacity() >= 1,
        crate::protocol_text::clean_line(m.spec_session()),
        forall|i: int| 0 <= i < m.spec_records().len() ==> record_writable(#[trigger] m.spec_records()[i]),
    ensures
        ({
            let ls = lines_of(m.spec_text());
            &&& header_value(ls[0], "auralis_session_memory="@, u32::MAX as nat) == Some(1nat)
            &&& ls.len() >= 4
            &&& has_prefix(ls[1], "session="@)
            &&& has_prefix(ls[2], "enabled="@)
            &&& header_value(ls[3], "capacity="@, usize::MAX as nat) == Some(m.spec_capacity() as nat)
            &&& ls[1].subrange(8, ls[1].len() as int) == m.spec_session()
            &&& (ls[2].subrange(8, ls[2].len() as int) == "1"@) == m.spec_enabled()
            &&& records_read(ls, ls.len()) == Ok::<Seq<RecordView>, Seq<char>>(records_view(m.spec_records()))
        }),
{
    let ls = memory_lines(m);
    let rs = m.spec_records();
    let n = rs.len();
    lemma_memory_text_lines(m);
    lemma_memory_prefixes();
    lemma_dec_free(m.spec_schema() as nat);
    lemma_dec_free(m.spec_capacity() as nat);
    crate::text::lemma_parse_dec(1);
    crate::text::lemma_parse_dec(m.spec_capacity() as nat);
    assert forall|i: int| 0 <= i < ls.len() implies crate::protocol_text::clean_line(#[trigger] ls[i]) by {
        if i >= 4 {
            assert(ls[i] == record_line_text(rs[i - 4]));
            assert(record_writable(rs[i - 4]));
            lemma_record_line_reads(rs[i - 4]);
        } else if i == 0 {
            lemma_free_concat("auralis_session_memory="@, dec(m.spec_schema() as nat), '\n');
            assert(ls[0].last() == dec(m.spec_schema() as nat).last());
        } else if i == 1 {
            lemma_free_concat("session="@, m.spec_session(), '\n');
            if m.spec_session().len() > 0 {
                assert(ls[1].last() == m.spec_session().last());
            } else {
                assert(ls[1].last() == '=');
            }
        } else if i == 2 {
            lemma_free_concat("enabled="@, enabled_word(m.spec_enabled()), '\n');
            assert(ls[2].last() == enabled_word(m.spec_enabled()).last());
        } else {
            lemma_free_concat("capacity="@, dec(m.spec_capacity() as nat), '\n');
            assert(ls[3].last() == dec(m.spec_capacity() as nat).last());
        }
    }
    crate::protocol_text::lemma_lines_of_joined(ls);
    let lp = ls.push(Seq::<char>::empty());
    assert(lines_of(m.spec_text()) == lp);
    assert(lp[0] == ls[0] && lp[1] == ls[1] && lp[2] == ls[2] && lp[3] == ls[3]);
    assert(ls[0].subrange(0, 23) =~= "auralis_session_memory="@);
    assert(ls[0].subrange(23, ls[0].len() as int) =~= dec(1));
    assert(ls[1].subrange(0, 8) =~= "session="@);
    assert(ls[1].subrange(8, ls[1].len() as int) =~= m.spec_session());
    assert(ls[2].subrange(0, 8) =~= "enabled="@);
    assert(ls[2].subrange(8, ls[2].len() as int) =~= enabled_word(m.spec_enabled()));
    assert(ls[3].subrange(0, 9) =~= "capacity="@);
    assert(ls[3].subrange(9, ls[3].len() as int) =~= dec(m.spec_capacity() as nat));
    lemma_records_read_lines(m, n);
    assert(rs.take(n as int) =~= rs);
    lemma_records_read_push(ls, Seq::<char>::empty(), ls.len());
    assert(lp[ls.len() as int] == Seq::<char>::empty());
    assert(records_read(lp, lp.len()) == records_read(lp, ls.len()));
}

} // verus!
