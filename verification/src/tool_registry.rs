//! Versioned tool registry and deterministic local reference tools.
//!
//! Discovery is decoupled from execution: the registry grants no authority,
//! and reference execution is only offered as a `ToolExecutor`, meant to sit
//! behind the permission runtime. No shell, network, browser, credentials,
//! arbitrary filesystem access or generated-code execution lives here.

use vstd::prelude::*;
use crate::fingerprint::{fingerprint_text, text_fingerprint};
use crate::order::{lemma_text_lt_asymmetric, lemma_text_lt_total, lemma_text_lt_transitive, text_less, text_lt};
use crate::text::{
    chars_of, contains, contains_seq, dec, dec_signed, has_prefix, i64_text, join2, parse_bounded,
    parse_unsigned_in, push_str, push_u64, starts_with, string_from, u64_text,
};
use crate::tool_protocol::{
    check_response, checked_response, copy_definition, validated_call, definition_fields_valid, valid_identifier, definition_valid, request_matches, same_definition, ToolArgKind, ToolArgSpec,
    ToolArgument, ToolDefinition, ToolErrorSeverity, ToolExecutor, ToolProtocolError, ToolRequest,
    ToolResponse, ToolValue, ValidatedToolCall,
};

verus! {

pub const TOOL_REGISTRY_SCHEMA_VERSION: u32 = 1;
pub const MAX_REGISTRY_TOOLS: usize = 256;

#[derive(Clone, Debug, PartialEq, Eq)]
pub enum ToolRegistryError {
    Protocol(String),
    Duplicate(String),
    Unknown(String),
    Capacity,
    Forbidden(String),
}

impl ToolRegistryError {
    /// Human-readable text of the error (its `Display` form).
    pub fn message(&self) -> (r: String)
        ensures
            r@ == (match self {
                ToolRegistryError::Protocol(m) => "protocol: "@ + m@,
                ToolRegistryError::Duplicate(id) => "duplicate tool "@ + id@,
                ToolRegistryError::Unknown(id) => "unknown tool "@ + id@,
                ToolRegistryError::Capacity => "registry capacity exceeded"@,
                ToolRegistryError::Forbidden(m) => "forbidden: "@ + m@,
            }),
    {
        match self {
            ToolRegistryError::Protocol(m) => join2("protocol: ", m.as_str()),
            ToolRegistryError::Duplicate(id) => join2("duplicate tool ", id.as_str()),
            ToolRegistryError::Unknown(id) => join2("unknown tool ", id.as_str()),
            ToolRegistryError::Capacity => string_from("registry capacity exceeded"),
            ToolRegistryError::Forbidden(m) => join2("forbidden: ", m.as_str()),
        }
    }

    /// A protocol error carried into the registry's error type.
    pub fn from_protocol(err: ToolProtocolError) -> (r: ToolRegistryError)
        ensures
            r matches ToolRegistryError::Protocol(m) && m@ == (match err {
                ToolProtocolError::Decode(v) => "tool protocol decode error: "@ + v@,
                ToolProtocolError::Definition(v) => "invalid tool definition: "@ + v@,
                ToolProtocolError::Request(v) => "invalid tool request: "@ + v@,
            }),
    {
        ToolRegistryError::Protocol(err.message())
    }
}

/// `name@version`, the key of a registered tool.
pub open spec fn identity(name: Seq<char>, version: u32) -> Seq<char> {
    name + "@"@ + dec(version as nat)
}

pub fn identity_string(name: &str, version: u32) -> (r: String)
    ensures
        r@ == identity(name@, version),
{
    let mut r = join2(name, "@");
    push_u64(&mut r, version as u64);
    r
}

#[derive(Clone, Debug, PartialEq, Eq)]
pub struct ToolListing {
    pub name: String,
    pub version: u32,
    pub capability: String,
    pub mutative: bool,
}

/// Which local reference implementation serves a registered tool.
#[derive(Clone, Copy, Debug, PartialEq, Eq)]
pub enum ReferenceKind {
    Echo,
    Add,
    FixtureRead,
    Error,
    Latency,
    AgentLookup,
}

#[derive(Clone, Debug)]
pub struct RegistryEntry {
    pub id: String,
    pub definition: ToolDefinition,
    pub reference_kind: Option<ReferenceKind>,
}

pub open spec fn same_tool(e: RegistryEntry, name: Seq<char>, version: u32) -> bool {
    e.definition.name@ == name && e.definition.version == version
}

/// The definition registered as `name@version`.
pub open spec fn tool_definition(es: Seq<RegistryEntry>, name: Seq<char>, version: u32) -> ToolDefinition {
    es[choose|i: int| 0 <= i < es.len() && same_tool(#[trigger] es[i], name, version)].definition
}

/// In entries with no tool twice, the definition of the tool at position
/// `p` is the one registered under its name and version.
pub proof fn lemma_tool_definition_at(es: Seq<RegistryEntry>, name: Seq<char>, version: u32, p: int)
    requires
        entries_wf(es),
        0 <= p < es.len(),
        same_tool(es[p], name, version),
    ensures
        tool_definition(es, name, version) == es[p].definition,
{
    let c = choose|i: int| 0 <= i < es.len() && same_tool(#[trigger] es[i], name, version);
    if c < p {
        assert(!same_tool(es[c], es[p].definition.name@, es[p].definition.version));
    } else if c > p {
        assert(!same_tool(es[p], es[c].definition.name@, es[c].definition.version));
    }
}

/// The timeout of the registered tool `name@version`.
pub open spec fn tool_timeout(es: Seq<RegistryEntry>, name: Seq<char>, version: u32) -> u64 {
    es[choose|i: int| 0 <= i < es.len() && same_tool(#[trigger] es[i], name, version)].definition.timeout_ms
}

/// Whether the registered tool `name@version` is mutative.
pub open spec fn tool_mutative(es: Seq<RegistryEntry>, name: Seq<char>, version: u32) -> bool {
    es[choose|i: int| 0 <= i < es.len() && same_tool(#[trigger] es[i], name, version)].definition.mutative
}

/// Some entry is the tool `name@version`.
pub open spec fn has_tool(es: Seq<RegistryEntry>, name: Seq<char>, version: u32) -> bool {
    exists|i: int| 0 <= i < es.len() && same_tool(#[trigger] es[i], name, version)
}

/// What the registry's entries always satisfy: valid definitions under
/// their own identity, no tool twice, sorted by identity, within capacity.
pub open spec fn entries_wf(es: Seq<RegistryEntry>) -> bool {
    &&& es.len() <= MAX_REGISTRY_TOOLS
    &&& forall|i: int| 0 <= i < es.len() ==> definition_valid((#[trigger] es[i]).definition)
        && es[i].id@ == identity(es[i].definition.name@, es[i].definition.version)
    &&& forall|i: int, j: int| 0 <= i < j < es.len() ==>
        !same_tool(#[trigger] es[i], (#[trigger] es[j]).definition.name@, es[j].definition.version)
    &&& forall|i: int, j: int| 0 <= i < j < es.len() ==> !text_lt((#[trigger] es[j]).id@, (#[trigger] es[i]).id@)
}

/// Names that stand for an external effect and are never registered.
pub open spec fn forbidden_name(name: Seq<char>) -> bool {
    ||| has_prefix(name, "shell."@)
    ||| has_prefix(name, "net."@)
    ||| has_prefix(name, "browser."@)
    ||| has_prefix(name, "fs."@)
    ||| contains_seq(name, "exec"@)
}

pub fn is_forbidden_name(name: &str) -> (r: bool)
    ensures
        r == forbidden_name(name@),
{
    starts_with(name, "shell.") || starts_with(name, "net.") || starts_with(name, "browser.")
        || starts_with(name, "fs.") || contains(name, "exec")
}

#[derive(Debug)]
pub struct ToolRegistry {
    entries: Vec<RegistryEntry>,
}

impl ToolRegistry {
    #[verifier::type_invariant]
    spec fn inv(self) -> bool {
        entries_wf(self.entries@)
    }

    /// The registered tools, in identity order.
    pub closed spec fn entries(self) -> Seq<RegistryEntry> {
        self.entries@
    }

    pub fn new() -> (r: ToolRegistry)
        ensures
            r.entries().len() == 0,
    {
        ToolRegistry { entries: Vec::new() }
    }

    /// The registry's own entries satisfy `entries_wf`.
    pub fn wf(&self) -> (r: bool)
        ensures
            r,
            entries_wf(self.entries()),
    {
        proof { use_type_invariant(self); }
        true
    }

    fn find(&self, name: &str, version: u32) -> (r: Option<usize>)
        ensures
            r is None <==> !has_tool(self.entries(), name@, version),
            r matches Some(i) ==> i < self.entries().len() && same_tool(self.entries()[i as int], name@, version),
    {
        let mut i: usize = 0;
        while i < self.entries.len()
            invariant
                i <= self.entries.len(),
                forall|k: int| 0 <= k < i ==> !same_tool(#[trigger] self.entries@[k], name@, version),
            decreases self.entries.len() - i,
        {
            if self.entries[i].definition.version == version
                && crate::text::same_text(self.entries[i].definition.name.as_str(), name) {
                return Some(i);
            }
            i = i + 1;
        }
        None
    }

    fn insert(&mut self, definition: ToolDefinition, reference_kind: Option<ReferenceKind>) -> (r: Result<(), ToolRegistryError>)
        ensures
            !definition_valid(definition) ==> (r matches Err(e) && e is Protocol),
            definition_valid(definition) && old(self).entries().len() >= MAX_REGISTRY_TOOLS ==> r == Err::<(), ToolRegistryError>(ToolRegistryError::Capacity),
            definition_valid(definition) && old(self).entries().len() < MAX_REGISTRY_TOOLS
                && has_tool(old(self).entries(), definition.name@, definition.version) ==>
                (r matches Err(ToolRegistryError::Duplicate(id)) && id@ == identity(definition.name@, definition.version)),
            r is Err ==> final(self).entries() == old(self).entries(),
            r is Ok <==> definition_valid(definition) && old(self).entries().len() < MAX_REGISTRY_TOOLS
                && !has_tool(old(self).entries(), definition.name@, definition.version),
            r is Ok ==> exists|p: int| 0 <= p <= old(self).entries().len()
                && final(self).entries() == old(self).entries().insert(p, final(self).entries()[p])
                && final(self).entries()[p].definition == definition
                && final(self).entries()[p].reference_kind == reference_kind,
    {
        proof { use_type_invariant(&*self); }
        match definition.validate() {
            Ok(()) => {},
            Err(e) => {
                return Err(ToolRegistryError::from_protocol(e));
            },
        }
        if self.entries.len() >= MAX_REGISTRY_TOOLS {
            return Err(ToolRegistryError::Capacity);
        }
        let id = identity_string(definition.name.as_str(), definition.version);
        match self.find(definition.name.as_str(), definition.version) {
            Some(_) => {
                return Err(ToolRegistryError::Duplicate(id));
            },
            None => {},
        }
        let mut p: usize = 0;
        while p < self.entries.len()
            invariant
                p <= self.entries.len(),
                forall|k: int| 0 <= k < p ==> !text_lt(id@, #[trigger] self.entries@[k].id@),
            ensures
                p <= self.entries.len(),
                forall|k: int| 0 <= k < p ==> !text_lt(id@, #[trigger] self.entries@[k].id@),
                p < self.entries.len() ==> text_lt(id@, self.entries@[p as int].id@),
            decreases self.entries.len() - p,
        {
            if text_less(id.as_str(), self.entries[p].id.as_str()) {
                break;
            }
            p = p + 1;
        }
        let ghost old_es = self.entries@;
        let entry = RegistryEntry { id, definition, reference_kind };
        let ghost e = entry;
        proof {
            let ne = old_es.insert(p as int, e);
            assert forall|i: int, j: int| 0 <= i < j < ne.len() implies !text_lt((#[trigger] ne[j]).id@, (#[trigger] ne[i]).id@) by {
                if j == p {
                    assert(ne[i] == old_es[i]);
                } else if i == p {
                    assert(ne[j] == old_es[j - 1]);
                    let q = old_es[p as int];
                    assert(text_lt(e.id@, q.id@));
                    if j - 1 > p {
                        lemma_text_lt_total(q.id@, old_es[j - 1].id@);
                        lemma_text_lt_transitive(e.id@, q.id@, old_es[j - 1].id@);
                    }
                    lemma_text_lt_asymmetric(e.id@, old_es[j - 1].id@);
                } else if j < p {
                    assert(ne[i] == old_es[i] && ne[j] == old_es[j]);
                } else if i < p {
                    assert(ne[i] == old_es[i] && ne[j] == old_es[j - 1]);
                } else {
                    assert(ne[i] == old_es[i - 1] && ne[j] == old_es[j - 1]);
                }
            }
            assert forall|i: int, j: int| 0 <= i < j < ne.len() implies
                !same_tool(#[trigger] ne[i], (#[trigger] ne[j]).definition.name@, ne[j].definition.version) by {
                if j == p {
                    assert(ne[i] == old_es[i]);
                } else if i == p {
                    assert(ne[j] == old_es[j - 1]);
                } else if j < p {
                    assert(ne[i] == old_es[i] && ne[j] == old_es[j]);
                } else if i < p {
                    assert(ne[i] == old_es[i] && ne[j] == old_es[j - 1]);
                } else {
                    assert(ne[i] == old_es[i - 1] && ne[j] == old_es[j - 1]);
                }
            }
            assert forall|i: int| 0 <= i < ne.len() implies definition_valid((#[trigger] ne[i]).definition)
                && ne[i].id@ == identity(ne[i].definition.name@, ne[i].definition.version) by {
                if i < p {
                    assert(ne[i] == old_es[i]);
                } else if i > p {
                    assert(ne[i] == old_es[i - 1]);
                }
            }
        }
        let mut es: Vec<RegistryEntry> = Vec::new();
        std::mem::swap(&mut es, &mut self.entries);
        es.insert(p, entry);
        self.entries = es;
        assert(self.entries@[p as int] == e);
        assert(self.entries@ =~= old_es.insert(p as int, self.entries@[p as int]));
        assert(self.entries@[p as int].definition == definition);
        assert(self.entries@[p as int].reference_kind == reference_kind);
        assert(self.entries() == old_es.insert(p as int, self.entries()[p as int]));
        Ok(())
    }

    /// Registers a caller's definition. Names of external effects are
    /// refused before anything else; then what `validate` refuses, a full
    /// registry, and a tool already registered under the same name and
    /// version.
    pub fn register_definition(&mut self, definition: ToolDefinition) -> (r: Result<(), ToolRegistryError>)
        ensures
            forbidden_name(definition.name@) ==> (r matches Err(ToolRegistryError::Forbidden(n)) && n@ == definition.name@),
            !forbidden_name(definition.name@) && !definition_valid(definition) ==> (r matches Err(e) && e is Protocol),
            !forbidden_name(definition.name@) && definition_valid(definition) && old(self).entries().len() >= MAX_REGISTRY_TOOLS
                ==> r == Err::<(), ToolRegistryError>(ToolRegistryError::Capacity),
            !forbidden_name(definition.name@) && definition_valid(definition) && old(self).entries().len() < MAX_REGISTRY_TOOLS
                && has_tool(old(self).entries(), definition.name@, definition.version) ==>
                (r matches Err(ToolRegistryError::Duplicate(id)) && id@ == identity(definition.name@, definition.version)),
            r is Err ==> final(self).entries() == old(self).entries(),
            r is Ok <==> !forbidden_name(definition.name@) && definition_valid(definition)
                && old(self).entries().len() < MAX_REGISTRY_TOOLS
                && !has_tool(old(self).entries(), definition.name@, definition.version),
            r is Ok ==> exists|p: int| 0 <= p <= old(self).entries().len()
                && final(self).entries() == old(self).entries().insert(p, final(self).entries()[p])
                && final(self).entries()[p].definition == definition
                && final(self).entries()[p].reference_kind is None,
            entries_wf(final(self).entries()),
            r is Ok ==> has_tool(final(self).entries(), definition.name@, definition.version)
                && tool_definition(final(self).entries(), definition.name@, definition.version) == definition,
    {
        if is_forbidden_name(definition.name.as_str()) {
            proof { use_type_invariant(&*self); }
            return Err(ToolRegistryError::Forbidden(definition.name));
        }
        let ghost d0 = definition;
        let r = self.insert(definition, None);
        proof {
            use_type_invariant(&*self);
            if r is Ok {
                let es = self.entries();
                let p = choose|p: int| 0 <= p <= old(self).entries().len()
                    && es == old(self).entries().insert(p, es[p])
                    && es[p].definition == d0
                    && es[p].reference_kind is None;
                assert(same_tool(es[p], d0.name@, d0.version));
                lemma_tool_definition_at(es, d0.name@, d0.version, p);
            }
        }
        r
    }

    /// Removes the tool `name@version`.
    pub fn unregister(&mut self, name: &str, version: u32) -> (r: Result<(), ToolRegistryError>)
        ensures
            r is Ok <==> has_tool(old(self).entries(), name@, version),
            r is Ok ==> exists|i: int| 0 <= i < old(self).entries().len()
                && same_tool(old(self).entries()[i], name@, version)
                && final(self).entries() == old(self).entries().remove(i),
            r is Err ==> final(self).entries() == old(self).entries()
                && (r matches Err(ToolRegistryError::Unknown(id)) && id@ == identity(name@, version)),
            entries_wf(final(self).entries()),
            !has_tool(final(self).entries(), name@, version),
    {
        proof { use_type_invariant(&*self); }
        match self.find(name, version) {
            Some(i) => {
                let ghost old_es = self.entries@;
                proof {
                    let ne = old_es.remove(i as int);
                    assert forall|a: int, b: int| 0 <= a < b < ne.len() implies !text_lt((#[trigger] ne[b]).id@, (#[trigger] ne[a]).id@) by {
                        if b < i {
                            assert(ne[a] == old_es[a] && ne[b] == old_es[b]);
                        } else if a < i {
                            assert(ne[a] == old_es[a] && ne[b] == old_es[b + 1]);
                        } else {
                            assert(ne[a] == old_es[a + 1] && ne[b] == old_es[b + 1]);
                        }
                    }
                    assert forall|a: int, b: int| 0 <= a < b < ne.len() implies
                        !same_tool(#[trigger] ne[a], (#[trigger] ne[b]).definition.name@, ne[b].definition.version) by {
                        if b < i {
                            assert(ne[a] == old_es[a] && ne[b] == old_es[b]);
                        } else if a < i {
                            assert(ne[a] == old_es[a] && ne[b] == old_es[b + 1]);
                        } else {
                            assert(ne[a] == old_es[a + 1] && ne[b] == old_es[b + 1]);
                        }
                    }
                    assert forall|a: int| 0 <= a < ne.len() implies definition_valid((#[trigger] ne[a]).definition)
                        && ne[a].id@ == identity(ne[a].definition.name@, ne[a].definition.version) by {
                        if a < i {
                            assert(ne[a] == old_es[a]);
                        } else {
                            assert(ne[a] == old_es[a + 1]);
                        }
                    }
                }
                let mut es: Vec<RegistryEntry> = Vec::new();
                std::mem::swap(&mut es, &mut self.entries);
                es.remove(i);
                self.entries = es;
                proof {
                    let ne = self.entries@;
                    if has_tool(ne, name@, version) {
                        let j = choose|j: int| 0 <= j < ne.len() && same_tool(#[trigger] ne[j], name@, version);
                        if j < i {
                            assert(ne[j] == old_es[j]);
                            assert(!same_tool(old_es[j], old_es[i as int].definition.name@, old_es[i as int].definition.version));
                        } else {
                            assert(ne[j] == old_es[j + 1]);
                            assert(!same_tool(old_es[i as int], old_es[j + 1].definition.name@, old_es[j + 1].definition.version));
                        }
                    }
                }
                Ok(())
            },
            None => Err(ToolRegistryError::Unknown(identity_string(name, version))),
        }
    }

    /// The definition registered as `name@version`.
    pub fn resolve(&self, name: &str, version: u32) -> (r: Option<&ToolDefinition>)
        ensures
            r is Some <==> has_tool(self.entries(), name@, version),
            r matches Some(d) ==> definition_valid(*d) && d.name@ == name@ && d.version == version
                && exists|i: int| 0 <= i < self.entries().len() && self.entries()[i].definition == *d,
            r matches Some(d) ==> d.timeout_ms == tool_timeout(self.entries(), name@, version)
                && d.mutative == tool_mutative(self.entries(), name@, version)
                && *d == tool_definition(self.entries(), name@, version),
            entries_wf(self.entries()),
    {
        proof { use_type_invariant(self); }
        match self.find(name, version) {
            Some(i) => {
                proof {
                    let es = self.entries();
                    let c = choose|c: int| 0 <= c < es.len() && same_tool(#[trigger] es[c], name@, version);
                    if c < i {
                        assert(!same_tool(es[c], es[i as int].definition.name@, es[i as int].definition.version));
                    } else if c > i {
                        assert(!same_tool(es[i as int], es[c].definition.name@, es[c].definition.version));
                    }
                }
                Some(&self.entries[i].definition)
            },
            None => None,
        }
    }

    /// Same as `resolve`.
    pub fn get(&self, name: &str, version: u32) -> (r: Option<&ToolDefinition>)
        ensures
            r is Some <==> has_tool(self.entries(), name@, version),
            r matches Some(d) ==> definition_valid(*d) && d.name@ == name@ && d.version == version
                && exists|i: int| 0 <= i < self.entries().len() && self.entries()[i].definition == *d,
            r matches Some(d) ==> *d == tool_definition(self.entries(), name@, version),
            entries_wf(self.entries()),
    {
        self.resolve(name, version)
    }

    /// One listing per registered tool, in identity order.
    pub fn list(&self) -> (r: Vec<ToolListing>)
        ensures
            r@.len() == self.entries().len(),
            forall|i: int| 0 <= i < r@.len() ==> {
                let d = self.entries()[i].definition;
                &&& (#[trigger] r@[i]).name@ == d.name@
                &&& r@[i].version == d.version
                &&& r@[i].capability@ == d.capability@
                &&& r@[i].mutative == d.mutative
            },
    {
        let mut out: Vec<ToolListing> = Vec::new();
        let mut i: usize = 0;
        while i < self.entries.len()
            invariant
                i <= self.entries.len(),
                out@.len() == i,
                forall|k: int| 0 <= k < i ==> {
                    let d = self.entries@[k].definition;
                    &&& (#[trigger] out@[k]).name@ == d.name@
                    &&& out@[k].version == d.version
                    &&& out@[k].capability@ == d.capability@
                    &&& out@[k].mutative == d.mutative
                },
            decreases self.entries.len() - i,
        {
            let d = &self.entries[i].definition;
            out.push(ToolListing {
                name: d.name.clone(),
                version: d.version,
                capability: d.capability.clone(),
                mutative: d.mutative,
            });
            i = i + 1;
        }
        out
    }

    /// The distinct capabilities of the registered tools, in text order.
    pub fn capabilities(&self) -> (r: Vec<String>)
        ensures
            forall|c: Seq<char>| #[trigger] holds_text(r@, c) <==> has_capability(self.entries(), c),
            forall|a: int, b: int| 0 <= a < b < r@.len() ==> text_lt((#[trigger] r@[a])@, (#[trigger] r@[b])@),
    {
        let mut out: Vec<String> = Vec::new();
        let mut i: usize = 0;
        while i < self.entries.len()
            invariant
                i <= self.entries.len(),
                forall|c: Seq<char>| #[trigger] holds_text(out@, c) <==> has_capability(self.entries@.subrange(0, i as int), c),
                forall|a: int, b: int| 0 <= a < b < out@.len() ==> text_lt((#[trigger] out@[a])@, (#[trigger] out@[b])@),
            decreases self.entries.len() - i,
        {
            let cap = &self.entries[i].definition.capability;
            let ghost before = out@;
            insert_sorted_unique(&mut out, cap.clone());
            proof {
                let pre = self.entries@.subrange(0, i as int);
                let post = self.entries@.subrange(0, i + 1);
                assert forall|c: Seq<char>| #[trigger] holds_text(out@, c) <==> has_capability(post, c) by {
                    if has_capability(post, c) {
                        let k = choose|k: int| 0 <= k < post.len() && (#[trigger] post[k]).definition.capability@ == c;
                        if k < i {
                            assert(pre[k] == post[k]);
                            assert(has_capability(pre, c));
                        }
                    }
                    if holds_text(out@, c) {
                        if c != cap@ {
                            assert(holds_text(before, c));
                            let k = choose|k: int| 0 <= k < pre.len() && (#[trigger] pre[k]).definition.capability@ == c;
                            assert(post[k] == pre[k]);
                        } else {
                            assert(post[i as int] == self.entries@[i as int]);
                        }
                    }
                }
            }
            i = i + 1;
        }
        assert(self.entries@.subrange(0, self.entries.len() as int) =~= self.entries@);
        out
    }

    /// Copies of the registered definitions, in identity order.
    pub fn catalog(&self) -> (r: Vec<ToolDefinition>)
        ensures
            r@.len() == self.entries().len(),
            forall|i: int| 0 <= i < r@.len() ==> same_definition(self.entries()[i].definition, #[trigger] r@[i]),
    {
        let mut out: Vec<ToolDefinition> = Vec::new();
        let mut i: usize = 0;
        while i < self.entries.len()
            invariant
                i <= self.entries.len(),
                out@.len() == i,
                forall|k: int| 0 <= k < i ==> same_definition(self.entries@[k].definition, #[trigger] out@[k]),
            decreases self.entries.len() - i,
        {
            out.push(copy_definition(&self.entries[i].definition));
            i = i + 1;
        }
        out
    }

    /// An executor for the registered tools that have a reference
    /// implementation; it starts with no invocations.
    pub fn reference_executor(&self) -> (r: ReferenceToolExecutor)
        ensures
            r.spec_invocations() == 0,
            forall|name: Seq<char>, version: u32| #[trigger] r.kind_of(name, version) == kind_in(self.entries(), name, version),
    {
        proof { use_type_invariant(self); }
        let mut kinds: Vec<(String, u32, ReferenceKind)> = Vec::new();
        let mut i: usize = 0;
        while i < self.entries.len()
            invariant
                i <= self.entries.len(),
                entries_wf(self.entries@),
                forall|name: Seq<char>, version: u32| #[trigger] kind_in_list(kinds@, name, version)
                    == kind_in(self.entries@.subrange(0, i as int), name, version),
            decreases self.entries.len() - i,
        {
            let e = &self.entries[i];
            let ghost before = kinds@;
            match e.reference_kind {
                Some(kind) => {
                    kinds.push((e.definition.name.clone(), e.definition.version, kind));
                    assert(kinds@.drop_last() =~= before);
                },
                None => {},
            }
            proof {
                let es = self.entries@;
                assert forall|name: Seq<char>, version: u32| #[trigger] kind_in_list(kinds@, name, version)
                    == kind_in(es.subrange(0, i + 1), name, version) by {
                    lemma_kind_in_push(es, i as int, name, version);
                    lemma_kind_in_list_push(before, kinds@, name, version);
                }
            }
            i = i + 1;
        }
        assert(self.entries@.subrange(0, self.entries.len() as int) =~= self.entries@);
        ReferenceToolExecutor { kinds, invocations: 0 }
    }

    /// Canonical text: a schema line, then one line per tool in identity
    /// order.
    pub fn canonical(&self) -> (r: String)
        ensures
            r@ == registry_text(self.entries()),
    {
        let mut out = string_from("auralis_tool_registry=");
        push_u64(&mut out, TOOL_REGISTRY_SCHEMA_VERSION as u64);
        push_str(&mut out, "\n");
        assert(out@ =~= entries_text(self.entries@, 0) + "auralis_tool_registry="@ + dec(1) + "\n"@);
        let ghost head = "auralis_tool_registry="@ + dec(1) + "\n"@;
        let mut i: usize = 0;
        while i < self.entries.len()
            invariant
                i <= self.entries.len(),
                out@ == head + entries_text(self.entries@, i as nat),
            decreases self.entries.len() - i,
        {
            push_entry_line(&mut out, &self.entries[i]);
            i = i + 1;
            assert(out@ =~= head + entries_text(self.entries@, i as nat));
        }
        out
    }

    /// FNV-1a of the canonical text.
    pub fn fingerprint(&self) -> (r: u64)
        ensures
            r == text_fingerprint(registry_text(self.entries())),
    {
        let text = self.canonical();
        fingerprint_text(text.as_str())
    }
}

/// The canonical line of one entry.
pub open spec fn entry_line(e: RegistryEntry) -> Seq<char> {
    "tool="@ + e.definition.name@ + "@"@ + dec(e.definition.version as nat) + "|capability="@
        + e.definition.capability@ + "|mutative="@ + crate::protocol_text::bool_word(e.definition.mutative)
        + "|reference="@ + crate::protocol_text::bool_word(e.reference_kind is Some) + "\n"@
}

fn push_entry_line(out: &mut String, e: &RegistryEntry)
    ensures
        final(out)@ == old(out)@ + entry_line(*e),
{
    let ghost before = out@;
    push_str(out, "tool=");
    push_str(out, e.definition.name.as_str());
    push_str(out, "@");
    push_u64(out, e.definition.version as u64);
    push_str(out, "|capability=");
    push_str(out, e.definition.capability.as_str());
    push_str(out, "|mutative=");
    push_str(out, crate::protocol_text::bool_text(e.definition.mutative));
    push_str(out, "|reference=");
    push_str(out, crate::protocol_text::bool_text(e.reference_kind.is_some()));
    push_str(out, "\n");
    assert(out@ =~= before + entry_line(*e));
}

pub open spec fn entries_text(es: Seq<RegistryEntry>, n: nat) -> Seq<char>
    decreases n,
{
    if n == 0 || n > es.len() {
        Seq::empty()
    } else {
        entries_text(es, (n - 1) as nat) + entry_line(es[n - 1])
    }
}

pub open spec fn registry_text(es: Seq<RegistryEntry>) -> Seq<char> {
    "auralis_tool_registry="@ + dec(TOOL_REGISTRY_SCHEMA_VERSION as nat) + "\n"@ + entries_text(es, es.len())
}

/// Some string of `v` holds the text `c`.
pub open spec fn holds_text(v: Seq<String>, c: Seq<char>) -> bool {
    exists|j: int| 0 <= j < v.len() && (#[trigger] v[j])@ == c
}

/// Some registered tool declares capability `c`.
pub open spec fn has_capability(es: Seq<RegistryEntry>, c: Seq<char>) -> bool {
    exists|i: int| 0 <= i < es.len() && (#[trigger] es[i]).definition.capability@ == c
}

/// Inserts `s` into a strictly sorted list unless it is already there.
fn insert_sorted_unique(v: &mut Vec<String>, s: String)
    requires
        forall|a: int, b: int| 0 <= a < b < old(v)@.len() ==> text_lt((#[trigger] old(v)@[a])@, (#[trigger] old(v)@[b])@),
    ensures
        forall|a: int, b: int| 0 <= a < b < final(v)@.len() ==> text_lt((#[trigger] final(v)@[a])@, (#[trigger] final(v)@[b])@),
        forall|c: Seq<char>| #[trigger] holds_text(final(v)@, c) <==> (holds_text(old(v)@, c) || c == s@),
{
    let mut p: usize = 0;
    while p < v.len()
        invariant
            p <= v.len(),
            forall|k: int| 0 <= k < p ==> text_lt((#[trigger] v@[k])@, s@),
        ensures
            p <= v.len(),
            forall|k: int| 0 <= k < p ==> text_lt((#[trigger] v@[k])@, s@),
            p < v.len() ==> !text_lt(v@[p as int]@, s@),
        decreases v.len() - p,
    {
        if !text_less(v[p].as_str(), s.as_str()) {
            break;
        }
        p = p + 1;
    }
    if p < v.len() && crate::text::same_text(v[p].as_str(), s.as_str()) {
        assert(v@[p as int]@ == s@);
        return;
    }
    let ghost old_v = v@;
    proof {
        if p < old_v.len() {
            lemma_text_lt_total(old_v[p as int]@, s@);
            assert(text_lt(s@, old_v[p as int]@));
        }
    }
    v.insert(p, s);
    proof {
        let nv = v@;
        assert forall|a: int, b: int| 0 <= a < b < nv.len() implies text_lt((#[trigger] nv[a])@, (#[trigger] nv[b])@) by {
            if b == p {
                assert(nv[a] == old_v[a]);
            } else if a == p {
                assert(nv[b] == old_v[b - 1]);
                if b - 1 > p {
                    lemma_text_lt_transitive(nv[a]@, old_v[p as int]@, old_v[b - 1]@);
                }
            } else if b < p {
                assert(nv[a] == old_v[a] && nv[b] == old_v[b]);
            } else if a < p {
                assert(nv[a] == old_v[a] && nv[b] == old_v[b - 1]);
            } else {
                assert(nv[a] == old_v[a - 1] && nv[b] == old_v[b - 1]);
            }
        }
        assert forall|c: Seq<char>| #[trigger] holds_text(nv, c) <==> (holds_text(old_v, c) || c == nv[p as int]@) by {
            if holds_text(nv, c) {
                let j = choose|j: int| 0 <= j < nv.len() && (#[trigger] nv[j])@ == c;
                if j < p {
                    assert(nv[j] == old_v[j]);
                } else if j > p {
                    assert(nv[j] == old_v[j - 1]);
                }
            }
            if holds_text(old_v, c) {
                let j = choose|j: int| 0 <= j < old_v.len() && (#[trigger] old_v[j])@ == c;
                if j < p {
                    assert(nv[j] == old_v[j]);
                } else {
                    assert(nv[j + 1] == old_v[j]);
                }
            }
        }
    }
}

// ---------------------------------------------------------------------------
// Reference execution
// ---------------------------------------------------------------------------

/// The reference kind registered for `name@version`, if any.
pub open spec fn kind_in(es: Seq<RegistryEntry>, name: Seq<char>, version: u32) -> Option<ReferenceKind>
    decreases es.len(),
{
    if es.len() == 0 {
        None
    } else if same_tool(es.last(), name, version) && es.last().reference_kind is Some {
        es.last().reference_kind
    } else {
        kind_in(es.drop_last(), name, version)
    }
}

pub open spec fn kind_in_list(ks: Seq<(String, u32, ReferenceKind)>, name: Seq<char>, version: u32) -> Option<ReferenceKind>
    decreases ks.len(),
{
    if ks.len() == 0 {
        None
    } else if ks.last().0@ == name && ks.last().1 == version {
        Some(ks.last().2)
    } else {
        kind_in_list(ks.drop_last(), name, version)
    }
}

proof fn lemma_kind_in_push(es: Seq<RegistryEntry>, i: int, name: Seq<char>, version: u32)
    requires
        0 <= i < es.len(),
    ensures
        kind_in(es.subrange(0, i + 1), name, version) == if same_tool(es[i], name, version) && es[i].reference_kind is Some {
            es[i].reference_kind
        } else {
            kind_in(es.subrange(0, i), name, version)
        },
{
    assert(es.subrange(0, i + 1).drop_last() =~= es.subrange(0, i));
}

proof fn lemma_kind_in_list_push(before: Seq<(String, u32, ReferenceKind)>, after: Seq<(String, u32, ReferenceKind)>, name: Seq<char>, version: u32)
    requires
        after == before || (after.len() == before.len() + 1 && after.drop_last() == before),
    ensures
        after.len() == before.len() + 1 ==> kind_in_list(after, name, version) == if after.last().0@ == name && after.last().1 == version {
            Some(after.last().2)
        } else {
            kind_in_list(before, name, version)
        },
{
}

#[derive(Clone, Debug)]
pub struct ReferenceToolExecutor {
    kinds: Vec<(String, u32, ReferenceKind)>,
    invocations: usize,
}

/// The first argument named `name` carries a string; `None` where there is
/// no such argument or it holds another type.
pub open spec fn string_arg_of(args: Seq<ToolArgument>, name: Seq<char>) -> Option<Seq<char>>
    decreases args.len(),
{
    if args.len() == 0 {
        None
    } else if args[0].name@ == name {
        match args[0].value {
            ToolValue::String(s) => Some(s@),
            _ => None,
        }
    } else {
        string_arg_of(args.drop_first(), name)
    }
}

/// The first argument named `name` carries an integer.
pub open spec fn int_arg_of(args: Seq<ToolArgument>, name: Seq<char>) -> Option<i64>
    decreases args.len(),
{
    if args.len() == 0 {
        None
    } else if args[0].name@ == name {
        match args[0].value {
            ToolValue::Integer(v) => Some(v),
            _ => None,
        }
    } else {
        int_arg_of(args.drop_first(), name)
    }
}

fn find_arg(args: &Vec<ToolArgument>, name: &str) -> (r: Option<usize>)
    ensures
        r is None ==> string_arg_of(args@, name@) is None && int_arg_of(args@, name@) is None,
        r matches Some(i) ==> i < args.len() && args@[i as int].name@ == name@
            && string_arg_of(args@, name@) == (match args@[i as int].value {
                ToolValue::String(s) => Some(s@),
                _ => None::<Seq<char>>,
            })
            && int_arg_of(args@, name@) == (match args@[i as int].value {
                ToolValue::Integer(v) => Some(v),
                _ => None::<i64>,
            }),
{
    let mut i: usize = 0;
    assert(args@.subrange(0, args.len() as int) =~= args@);
    while i < args.len()
        invariant
            i <= args.len(),
            string_arg_of(args@, name@) == string_arg_of(args@.subrange(i as int, args.len() as int), name@),
            int_arg_of(args@, name@) == int_arg_of(args@.subrange(i as int, args.len() as int), name@),
        decreases args.len() - i,
    {
        let ghost rest = args@.subrange(i as int, args.len() as int);
        assert(rest.drop_first() =~= args@.subrange(i + 1, args.len() as int));
        assert(rest[0] == args@[i as int]);
        if crate::text::same_text(args[i].name.as_str(), name) {
            return Some(i);
        }
        i = i + 1;
    }
    None
}

/// What the lookup tool answers for a key: nothing for `missing-…`, and
/// `1000 + n` for `city-n`.
pub open spec fn agent_lookup_spec(key: Seq<char>) -> Option<Seq<char>> {
    if has_prefix(key, "missing-"@) {
        None
    } else if has_prefix(key, "city-"@) {
        match parse_bounded(key.subrange(5, key.len() as int), u64::MAX as nat) {
            Some(n) => if 1000 + n <= u64::MAX { Some(dec((1000 + n) as nat)) } else { None },
            None => None,
        }
    } else {
        None
    }
}

/// The controlled lookup of the reference `lookup` tool.
pub fn agent_lookup(key: &str) -> (r: Option<String>)
    ensures
        r matches Some(s) ==> agent_lookup_spec(key@) == Some(s@),
        r is None ==> agent_lookup_spec(key@) is None,
{
    if starts_with(key, "missing-") {
        return None;
    }
    if !starts_with(key, "city-") {
        return None;
    }
    proof { reveal_strlit("city-"); }
    let cs = chars_of(key);
    match parse_unsigned_in(&cs, 5, cs.len(), u64::MAX) {
        Some(n) => {
            if n <= u64::MAX - 1000 {
                Some(u64_text(1000 + n))
            } else {
                None
            }
        },
        None => None,
    }
}

/// What a reference tool answers, where the arguments have the types its
/// definition gives them.
pub open spec fn reference_answers(kind: ReferenceKind, args: Seq<ToolArgument>, r: ToolResponse) -> bool {
    match kind {
        ReferenceKind::Echo => match string_arg_of(args, "text"@) {
            Some(t) => r matches ToolResponse::Result(v) && v.content@ == t,
            None => r matches ToolResponse::Error(e) && e.severity == ToolErrorSeverity::Fatal
                && e.code@ == "invalid-reference-arguments"@,
        },
        ReferenceKind::Add => match (int_arg_of(args, "left"@), int_arg_of(args, "right"@)) {
            (Some(a), Some(b)) => if i64::MIN <= a + b <= i64::MAX {
                r matches ToolResponse::Result(v) && v.content@ == dec_signed(a + b)
            } else {
                r matches ToolResponse::Error(e) && e.severity == ToolErrorSeverity::Fatal && e.code@ == "integer-overflow"@
            },
            _ => r matches ToolResponse::Error(e) && e.severity == ToolErrorSeverity::Fatal
                && e.code@ == "invalid-reference-arguments"@,
        },
        ReferenceKind::FixtureRead => match string_arg_of(args, "key"@) {
            Some(k) => r matches ToolResponse::Result(v) && v.content@ == (if k == "alpha"@ {
                "fixture-alpha"@
            } else if k == "beta"@ {
                "fixture-beta"@
            } else {
                "fixture-unknown"@
            }),
            None => r matches ToolResponse::Error(e) && e.severity == ToolErrorSeverity::Fatal
                && e.code@ == "invalid-reference-arguments"@,
        },
        ReferenceKind::Error => match string_arg_of(args, "code"@) {
            Some(c) => r matches ToolResponse::Error(e) && e.severity == ToolErrorSeverity::Recoverable
                && e.code@ == c && e.message@ == "injected reference error"@,
            None => r matches ToolResponse::Error(e) && e.severity == ToolErrorSeverity::Fatal
                && e.code@ == "invalid-reference-arguments"@,
        },
        ReferenceKind::Latency => match int_arg_of(args, "ticks"@) {
            Some(t) => r matches ToolResponse::Result(v) && v.content@ == "ticks="@ + dec_signed(t as int),
            None => r matches ToolResponse::Error(e) && e.severity == ToolErrorSeverity::Fatal
                && e.code@ == "invalid-reference-arguments"@,
        },
        ReferenceKind::AgentLookup => match string_arg_of(args, "key"@) {
            Some(k) => match agent_lookup_spec(k) {
                Some(v) => r matches ToolResponse::Result(res) && res.content@ == v,
                None => r matches ToolResponse::Error(e) && e.severity == ToolErrorSeverity::Recoverable
                    && e.code@ == "not-found"@,
            },
            None => r matches ToolResponse::Error(e) && e.severity == ToolErrorSeverity::Fatal
                && e.code@ == "invalid-reference-arguments"@,
        },
    }
}

fn bad_arguments(call_id: &str) -> (r: ToolResponse)
    ensures
        r matches ToolResponse::Error(e) && e.severity == ToolErrorSeverity::Fatal
            && e.code@ == "invalid-reference-arguments"@ && e.call_id@ == call_id@,
{
    ToolResponse::error(call_id, ToolErrorSeverity::Fatal, "invalid-reference-arguments", "reference tool arguments do not match")
}

impl ReferenceToolExecutor {
    pub closed spec fn spec_invocations(self) -> nat {
        self.invocations as nat
    }

    /// The reference kind that serves `name@version`.
    pub closed spec fn kind_of(self, name: Seq<char>, version: u32) -> Option<ReferenceKind> {
        kind_in_list(self.kinds@, name, version)
    }

    pub fn invocations(&self) -> (r: usize)
        ensures
            r == self.spec_invocations(),
    {
        self.invocations
    }

    fn find_kind(&self, name: &str, version: u32) -> (r: Option<ReferenceKind>)
        ensures
            r == self.kind_of(name@, version),
    {
        let mut i = self.kinds.len();
        assert(self.kinds@.subrange(0, i as int) =~= self.kinds@);
        while i > 0
            invariant
                i <= self.kinds.len(),
                kind_in_list(self.kinds@, name@, version) == kind_in_list(self.kinds@.subrange(0, i as int), name@, version),
            decreases i,
        {
            let ghost pre = self.kinds@.subrange(0, i as int);
            assert(pre.drop_last() =~= self.kinds@.subrange(0, i - 1));
            let k = &self.kinds[i - 1];
            if k.1 == version && crate::text::same_text(k.0.as_str(), name) {
                return Some(k.2);
            }
            i = i - 1;
        }
        None
    }
}

impl ToolExecutor for ReferenceToolExecutor {
    /// Counts the call and answers as the reference implementation of the
    /// tool's kind does; a tool with no reference implementation gets a
    /// fatal `no-reference-executor` error.
    open spec fn executes(&self, definition: ToolDefinition, request: ToolRequest, r: ToolResponse, after: Self) -> bool {
        &&& after.spec_invocations() == if self.spec_invocations() < usize::MAX {
            self.spec_invocations() + 1
        } else {
            self.spec_invocations()
        }
        &&& forall|name: Seq<char>, version: u32| #[trigger] after.kind_of(name, version) == self.kind_of(name, version)
        &&& r.spec_call_id() == request.call_id@
        &&& match self.kind_of(definition.name@, definition.version) {
            None => r matches ToolResponse::Error(e) && e.severity == ToolErrorSeverity::Fatal
                && e.code@ == "no-reference-executor"@,
            Some(kind) => reference_answers(kind, request.arguments@, r),
        }
    }

    fn execute(&mut self, call: ValidatedToolCall<'_>) -> (r: ToolResponse)
    {
        if self.invocations < usize::MAX {
            self.invocations = self.invocations + 1;
        }
        let definition = call.definition();
        let request = call.request();
        let call_id = request.call_id.as_str();
        let args = &request.arguments;
        let kind = match self.find_kind(definition.name.as_str(), definition.version) {
            Some(k) => k,
            None => {
                return ToolResponse::error(
                    call_id,
                    ToolErrorSeverity::Fatal,
                    "no-reference-executor",
                    "registered definition has no local reference implementation",
                );
            },
        };
        match kind {
            ReferenceKind::Echo => match find_arg(args, "text") {
                Some(i) => match &args[i].value {
                    ToolValue::String(t) => ToolResponse::result(call_id, t.as_str()),
                    _ => bad_arguments(call_id),
                },
                None => bad_arguments(call_id),
            },
            ReferenceKind::Add => {
                let left = match find_arg(args, "left") {
                    Some(i) => match &args[i].value {
                        ToolValue::Integer(v) => *v,
                        _ => {
                            return bad_arguments(call_id);
                        },
                    },
                    None => {
                        return bad_arguments(call_id);
                    },
                };
                let right = match find_arg(args, "right") {
                    Some(i) => match &args[i].value {
                        ToolValue::Integer(v) => *v,
                        _ => {
                            return bad_arguments(call_id);
                        },
                    },
                    None => {
                        return bad_arguments(call_id);
                    },
                };
                match left.checked_add(right) {
                    Some(sum) => ToolResponse::result(call_id, i64_text(sum).as_str()),
                    None => ToolResponse::error(call_id, ToolErrorSeverity::Fatal, "integer-overflow", "reference addition overflowed"),
                }
            },
            ReferenceKind::FixtureRead => match find_arg(args, "key") {
                Some(i) => match &args[i].value {
                    ToolValue::String(k) => {
                        let value = if crate::text::same_text(k.as_str(), "alpha") {
                            "fixture-alpha"
                        } else if crate::text::same_text(k.as_str(), "beta") {
                            "fixture-beta"
                        } else {
                            "fixture-unknown"
                        };
                        ToolResponse::result(call_id, value)
                    },
                    _ => bad_arguments(call_id),
                },
                None => bad_arguments(call_id),
            },
            ReferenceKind::Error => match find_arg(args, "code") {
                Some(i) => match &args[i].value {
                    ToolValue::String(c) => ToolResponse::error(call_id, ToolErrorSeverity::Recoverable, c.as_str(), "injected reference error"),
                    _ => bad_arguments(call_id),
                },
                None => bad_arguments(call_id),
            },
            ReferenceKind::Latency => match find_arg(args, "ticks") {
                Some(i) => match &args[i].value {
                    ToolValue::Integer(t) => {
                        let text = join2("ticks=", i64_text(*t).as_str());
                        ToolResponse::result(call_id, text.as_str())
                    },
                    _ => bad_arguments(call_id),
                },
                None => bad_arguments(call_id),
            },
            ReferenceKind::AgentLookup => match find_arg(args, "key") {
                Some(i) => match &args[i].value {
                    ToolValue::String(k) => match agent_lookup(k.as_str()) {
                        Some(v) => ToolResponse::result(call_id, v.as_str()),
                        None => ToolResponse::error(call_id, ToolErrorSeverity::Recoverable, "not-found", "controlled lookup key does not exist"),
                    },
                    _ => bad_arguments(call_id),
                },
                None => bad_arguments(call_id),
            },
        }
    }
}


// ---------------------------------------------------------------------------
// Reference tool definitions
// ---------------------------------------------------------------------------

fn string_spec(name: &str, min_len: usize, max_len: usize) -> (r: ToolArgSpec)
    ensures
        r.name@ == name@ && r.required && r.kind == (ToolArgKind::String { min_len, max_len }),
{
    ToolArgSpec { name: string_from(name), required: true, kind: ToolArgKind::String { min_len, max_len } }
}

fn integer_spec(name: &str, min: i64, max: i64) -> (r: ToolArgSpec)
    ensures
        r.name@ == name@ && r.required && r.kind == (ToolArgKind::Integer { min, max }),
{
    ToolArgSpec { name: string_from(name), required: true, kind: ToolArgKind::Integer { min, max } }
}

fn enum_spec(name: &str, a: &str, b: &str) -> (r: ToolArgSpec)
    ensures
        r.name@ == name@ && r.required,
        r.kind matches ToolArgKind::Enum { variants } && variants@.len() == 2 && variants@[0]@ == a@ && variants@[1]@ == b@,
{
    let mut variants: Vec<String> = Vec::new();
    variants.push(string_from(a));
    variants.push(string_from(b));
    ToolArgSpec { name: string_from(name), required: true, kind: ToolArgKind::Enum { variants } }
}

fn reference_definition(
    name: &str,
    capability: &str,
    timeout_ms: u64,
    max_result_bytes: usize,
    args: Vec<ToolArgSpec>,
) -> (r: Result<ToolDefinition, ToolRegistryError>)
    ensures
        r is Ok <==> definition_fields_valid(name@, 1, capability@, timeout_ms, max_result_bytes, args@),
        r matches Ok(d) ==> definition_valid(d) && d.name@ == name@ && d.version == 1 && d.capability@ == capability@
            && !d.mutative && d.timeout_ms == timeout_ms && d.max_result_bytes == max_result_bytes && d.args == args,
        r matches Err(e) ==> e is Protocol,
{
    match ToolDefinition::new(name, 1, capability, false, timeout_ms, max_result_bytes, args) {
        Ok(d) => Ok(d),
        Err(e) => Err(ToolRegistryError::from_protocol(e)),
    }
}

impl ToolRegistry {
    fn register_reference(&mut self, definition: ToolDefinition, kind: ReferenceKind) -> (r: Result<(), ToolRegistryError>)
        ensures
            r is Ok <==> definition_valid(definition) && old(self).entries().len() < MAX_REGISTRY_TOOLS
                && !has_tool(old(self).entries(), definition.name@, definition.version),
            r is Err ==> final(self).entries() == old(self).entries(),
            r is Ok ==> final(self).entries().len() == old(self).entries().len() + 1,
            r is Ok ==> forall|n: Seq<char>, v: u32| #[trigger] has_tool(final(self).entries(), n, v)
                <==> (has_tool(old(self).entries(), n, v) || (n == definition.name@ && v == definition.version)),
            r is Ok && all_reference(old(self).entries()) && !definition.mutative ==> all_reference(final(self).entries()),
            r is Ok ==> exists|i: int| 0 <= i < final(self).entries().len() && (#[trigger] final(self).entries()[i]).definition == definition
                && final(self).entries()[i].reference_kind == Some(kind),
            r is Ok ==> forall|k: int| #[trigger] has_reference(old(self).entries(), k) ==> has_reference(final(self).entries(), k),
    {
        let ghost m = definition.mutative;
        let ghost def0 = definition;
        let ghost dn = definition.name@;
        let ghost dv = definition.version;
        let r = self.insert(definition, Some(kind));
        proof {
            if r is Ok {
                let p = choose|p: int| 0 <= p <= old(self).entries().len()
                    && self.entries() == old(self).entries().insert(p, self.entries()[p])
                    && self.entries()[p].definition.name@ == dn
                    && self.entries()[p].definition.version == dv
                    && self.entries()[p].definition.mutative == m
                    && self.entries()[p].reference_kind == Some(kind);
                let (o, f) = (old(self).entries(), self.entries());
                let p2 = choose|p: int| 0 <= p <= old(self).entries().len()
                    && self.entries() == old(self).entries().insert(p, self.entries()[p])
                    && self.entries()[p].definition == def0
                    && self.entries()[p].reference_kind == Some(kind);
                assert(f[p2].definition == def0);
                assert forall|k: int| #[trigger] has_reference(o, k) implies has_reference(f, k) by {
                    let i = choose|i: int| 0 <= i < o.len() && reference_entry(#[trigger] o[i], k);
                    if i < p2 {
                        assert(f[i] == o[i]);
                    } else {
                        assert(f[i + 1] == o[i]);
                    }
                }
                assert forall|n: Seq<char>, v: u32| #[trigger] has_tool(f, n, v)
                    <==> (has_tool(o, n, v) || (n == dn && v == dv)) by {
                    if has_tool(f, n, v) {
                        let i = choose|i: int| 0 <= i < f.len() && same_tool(#[trigger] f[i], n, v);
                        if i < p {
                            assert(f[i] == o[i]);
                        } else if i > p {
                            assert(f[i] == o[i - 1]);
                        }
                    }
                    if has_tool(o, n, v) {
                        let j = choose|j: int| 0 <= j < o.len() && same_tool(#[trigger] o[j], n, v);
                        if j < p {
                            assert(f[j] == o[j]);
                        } else {
                            assert(f[j + 1] == o[j]);
                        }
                    }
                    if n == dn && v == dv {
                        assert(same_tool(f[p], n, v));
                    }
                }
                if all_reference(o) && !m {
                    assert forall|i: int| 0 <= i < f.len() implies (#[trigger] f[i]).reference_kind is Some && !f[i].definition.mutative by {
                        if i < p {
                            assert(f[i] == o[i]);
                        } else if i > p {
                            assert(f[i] == o[i - 1]);
                        }
                    }
                }
            }
        }
        r
    }

    /// A registry holding the six local reference tools: `ref.echo`,
    /// `ref.add`, `ref.fixture`, `ref.error`, `ref.latency` and `lookup`.
    pub fn with_reference_tools() -> (r: Result<ToolRegistry, ToolRegistryError>)
        ensures
            r is Ok,
            r matches Ok(reg) ==> {
                &&& reg.entries().len() == 6
                &&& all_reference(reg.entries())
                &&& forall|n: Seq<char>, v: u32| #[trigger] has_tool(reg.entries(), n, v)
                    <==> (v == 1 && reference_tool_names().contains(n))
                &&& forall|k: int| 0 <= k < 6 ==> #[trigger] has_reference(reg.entries(), k)
            },
    {
        proof { lemma_reference_literals(); }
        let mut registry = ToolRegistry::new();

        let mut args: Vec<ToolArgSpec> = Vec::new();
        args.push(string_spec("text", 1, 64));
        let d = reference_definition("ref.echo", "fixture.read", 100, 256, args)?;
        registry.register_reference(d, ReferenceKind::Echo)?;
        proof {
            let i = choose|i: int| 0 <= i < registry.entries().len() && (#[trigger] registry.entries()[i]).definition == d
                && registry.entries()[i].reference_kind == Some(ReferenceKind::Echo);
            assert(reference_entry(registry.entries()[i], 0));
            assert(has_reference(registry.entries(), 0));
        }

        let mut args: Vec<ToolArgSpec> = Vec::new();
        args.push(integer_spec("left", -1000, 1000));
        args.push(integer_spec("right", -1000, 1000));
        let d = reference_definition("ref.add", "math.read", 100, 64, args)?;
        registry.register_reference(d, ReferenceKind::Add)?;
        proof {
            let i = choose|i: int| 0 <= i < registry.entries().len() && (#[trigger] registry.entries()[i]).definition == d
                && registry.entries()[i].reference_kind == Some(ReferenceKind::Add);
            assert(reference_entry(registry.entries()[i], 1));
            assert(has_reference(registry.entries(), 1));
        }

        let mut args: Vec<ToolArgSpec> = Vec::new();
        args.push(enum_spec("key", "alpha", "beta"));
        let d = reference_definition("ref.fixture", "fixture.read", 100, 256, args)?;
        registry.register_reference(d, ReferenceKind::FixtureRead)?;
        proof {
            let i = choose|i: int| 0 <= i < registry.entries().len() && (#[trigger] registry.entries()[i]).definition == d
                && registry.entries()[i].reference_kind == Some(ReferenceKind::FixtureRead);
            assert(reference_entry(registry.entries()[i], 2));
            assert(has_reference(registry.entries(), 2));
        }

        let mut args: Vec<ToolArgSpec> = Vec::new();
        args.push(enum_spec("code", "missing", "busy"));
        let d = reference_definition("ref.error", "fixture.read", 100, 64, args)?;
        registry.register_reference(d, ReferenceKind::Error)?;
        proof {
            let i = choose|i: int| 0 <= i < registry.entries().len() && (#[trigger] registry.entries()[i]).definition == d
                && registry.entries()[i].reference_kind == Some(ReferenceKind::Error);
            assert(reference_entry(registry.entries()[i], 3));
            assert(has_reference(registry.entries(), 3));
        }

        let mut args: Vec<ToolArgSpec> = Vec::new();
        args.push(integer_spec("ticks", 0, 3));
        let d = reference_definition("ref.latency", "fixture.read", 50, 64, args)?;
        registry.register_reference(d, ReferenceKind::Latency)?;
        proof {
            let i = choose|i: int| 0 <= i < registry.entries().len() && (#[trigger] registry.entries()[i]).definition == d
                && registry.entries()[i].reference_kind == Some(ReferenceKind::Latency);
            assert(reference_entry(registry.entries()[i], 4));
            assert(has_reference(registry.entries(), 4));
        }

        let mut args: Vec<ToolArgSpec> = Vec::new();
        args.push(string_spec("key", 1, 64));
        let d = reference_definition("lookup", "agent.lookup", 100, 128, args)?;
        registry.register_reference(d, ReferenceKind::AgentLookup)?;
        proof {
            let i = choose|i: int| 0 <= i < registry.entries().len() && (#[trigger] registry.entries()[i]).definition == d
                && registry.entries()[i].reference_kind == Some(ReferenceKind::AgentLookup);
            assert(reference_entry(registry.entries()[i], 5));
            assert(has_reference(registry.entries(), 5));
        }

        proof {
            assert forall|k: int| 0 <= k < 6 implies #[trigger] has_reference(registry.entries(), k) by {
                assert(k == 0 || k == 1 || k == 2 || k == 3 || k == 4 || k == 5);
            }
            let names = reference_tool_names();
            assert forall|n: Seq<char>, v: u32| #[trigger] has_tool(registry.entries(), n, v)
                <==> (v == 1 && names.contains(n)) by {
                if v == 1 && names.contains(n) {
                    let k = choose|k: int| 0 <= k < names.len() && names[k] == n;
                    assert(k == 0 || k == 1 || k == 2 || k == 3 || k == 4 || k == 5);
                }
                if has_tool(registry.entries(), n, v) {
                    if n == "ref.echo"@ { assert(names[0] == n); }
                    else if n == "ref.add"@ { assert(names[1] == n); }
                    else if n == "ref.fixture"@ { assert(names[2] == n); }
                    else if n == "ref.error"@ { assert(names[3] == n); }
                    else if n == "ref.latency"@ { assert(names[4] == n); }
                    else { assert(names[5] == n); }
                }
            }
        }
        Ok(registry)
    }
}

/// Entry `e` is reference tool number `k` (in registration order): its
/// name, version, capability, timeout, result limit, argument schema and
/// reference implementation.
pub open spec fn reference_entry(e: RegistryEntry, k: int) -> bool {
    let d = e.definition;
    let a = d.args@;
    &&& d.version == 1
    &&& !d.mutative
    &&& if k == 0 {
        &&& d.name@ == "ref.echo"@ && d.capability@ == "fixture.read"@ && d.timeout_ms == 100 && d.max_result_bytes == 256
        &&& e.reference_kind == Some(ReferenceKind::Echo)
        &&& a.len() == 1 && a[0].name@ == "text"@ && a[0].required && a[0].kind == (ToolArgKind::String { min_len: 1, max_len: 64 })
    } else if k == 1 {
        &&& d.name@ == "ref.add"@ && d.capability@ == "math.read"@ && d.timeout_ms == 100 && d.max_result_bytes == 64
        &&& e.reference_kind == Some(ReferenceKind::Add)
        &&& a.len() == 2 && a[0].name@ == "left"@ && a[0].required && a[0].kind == (ToolArgKind::Integer { min: -1000i64, max: 1000i64 })
        &&& a[1].name@ == "right"@ && a[1].required && a[1].kind == (ToolArgKind::Integer { min: -1000i64, max: 1000i64 })
    } else if k == 2 {
        &&& d.name@ == "ref.fixture"@ && d.capability@ == "fixture.read"@ && d.timeout_ms == 100 && d.max_result_bytes == 256
        &&& e.reference_kind == Some(ReferenceKind::FixtureRead)
        &&& a.len() == 1 && a[0].name@ == "key"@ && a[0].required
        &&& a[0].kind matches ToolArgKind::Enum { variants } && variants@.len() == 2 && variants@[0]@ == "alpha"@ && variants@[1]@ == "beta"@
    } else if k == 3 {
        &&& d.name@ == "ref.error"@ && d.capability@ == "fixture.read"@ && d.timeout_ms == 100 && d.max_result_bytes == 64
        &&& e.reference_kind == Some(ReferenceKind::Error)
        &&& a.len() == 1 && a[0].name@ == "code"@ && a[0].required
        &&& a[0].kind matches ToolArgKind::Enum { variants } && variants@.len() == 2 && variants@[0]@ == "missing"@ && variants@[1]@ == "busy"@
    } else if k == 4 {
        &&& d.name@ == "ref.latency"@ && d.capability@ == "fixture.read"@ && d.timeout_ms == 50 && d.max_result_bytes == 64
        &&& e.reference_kind == Some(ReferenceKind::Latency)
        &&& a.len() == 1 && a[0].name@ == "ticks"@ && a[0].required && a[0].kind == (ToolArgKind::Integer { min: 0, max: 3 })
    } else {
        &&& d.name@ == "lookup"@ && d.capability@ == "agent.lookup"@ && d.timeout_ms == 100 && d.max_result_bytes == 128
        &&& e.reference_kind == Some(ReferenceKind::AgentLookup)
        &&& a.len() == 1 && a[0].name@ == "key"@ && a[0].required && a[0].kind == (ToolArgKind::String { min_len: 1, max_len: 64 })
    }
}

/// Some entry of `es` is reference tool number `k`.
pub open spec fn has_reference(es: Seq<RegistryEntry>, k: int) -> bool {
    exists|i: int| 0 <= i < es.len() && reference_entry(#[trigger] es[i], k)
}

/// The names of the six reference tools, in the order they are registered.
pub open spec fn reference_tool_names() -> Seq<Seq<char>> {
    seq!["ref.echo"@, "ref.add"@, "ref.fixture"@, "ref.error"@, "ref.latency"@, "lookup"@]
}

/// The literals of the reference tools are valid identifiers, and the
/// names that must differ do.
proof fn lemma_reference_literals()
    ensures
        valid_identifier("ref.echo"@, 64),
        valid_identifier("ref.add"@, 64),
        valid_identifier("ref.fixture"@, 64),
        valid_identifier("ref.error"@, 64),
        valid_identifier("ref.latency"@, 64),
        valid_identifier("lookup"@, 64),
        valid_identifier("fixture.read"@, 64),
        valid_identifier("math.read"@, 64),
        valid_identifier("agent.lookup"@, 64),
        valid_identifier("text"@, 64),
        valid_identifier("left"@, 64),
        valid_identifier("right"@, 64),
        valid_identifier("key"@, 64),
        valid_identifier("code"@, 64),
        valid_identifier("ticks"@, 64),
        valid_identifier("alpha"@, 64),
        valid_identifier("beta"@, 64),
        valid_identifier("missing"@, 64),
        valid_identifier("busy"@, 64),
        "ref.echo"@ != "ref.add"@,
        "ref.echo"@ != "ref.fixture"@,
        "ref.echo"@ != "ref.error"@,
        "ref.echo"@ != "ref.latency"@,
        "ref.echo"@ != "lookup"@,
        "ref.add"@ != "ref.fixture"@,
        "ref.add"@ != "ref.error"@,
        "ref.add"@ != "ref.latency"@,
        "ref.add"@ != "lookup"@,
        "ref.fixture"@ != "ref.error"@,
        "ref.fixture"@ != "ref.latency"@,
        "ref.fixture"@ != "lookup"@,
        "ref.error"@ != "ref.latency"@,
        "ref.error"@ != "lookup"@,
        "ref.latency"@ != "lookup"@,
        "left"@ != "right"@,
        "alpha"@ != "beta"@,
        "missing"@ != "busy"@,
{
    reveal_strlit("ref.echo");
    reveal_strlit("ref.add");
    reveal_strlit("ref.fixture");
    reveal_strlit("ref.error");
    reveal_strlit("ref.latency");
    reveal_strlit("lookup");
    reveal_strlit("fixture.read");
    reveal_strlit("math.read");
    reveal_strlit("agent.lookup");
    reveal_strlit("text");
    reveal_strlit("left");
    reveal_strlit("right");
    reveal_strlit("key");
    reveal_strlit("code");
    reveal_strlit("ticks");
    reveal_strlit("alpha");
    reveal_strlit("beta");
    reveal_strlit("missing");
    reveal_strlit("busy");
    assert("ref.echo"@.len() == 8);
    assert("ref.add"@.len() == 7);
    assert("ref.fixture"@.len() == 11);
    assert("ref.error"@.len() == 9);
    assert("ref.latency"@.len() == 11);
    assert("lookup"@.len() == 6);
    assert("left"@.len() == 4);
    assert("right"@.len() == 5);
    assert("alpha"@.len() == 5);
    assert("beta"@.len() == 4);
    assert("missing"@.len() == 7);
    assert("busy"@.len() == 4);
    assert("ref.fixture"@[4] != "ref.latency"@[4]);
}

/// Every entry has a reference implementation and none is mutative.
pub open spec fn all_reference(es: Seq<RegistryEntry>) -> bool {
    forall|i: int| 0 <= i < es.len() ==> (#[trigger] es[i]).reference_kind is Some && !es[i].definition.mutative
}


/// `r` is what the reference executor `ex` answers to `request` under the
/// definition `d`: the answer of the step's reference kind, or a fatal
/// `no-reference-executor` where the tool has none.
pub open spec fn reference_response(ex: ReferenceToolExecutor, d: ToolDefinition, request: ToolRequest, r: ToolResponse) -> bool {
    &&& r.spec_call_id() == request.call_id@
    &&& match ex.kind_of(d.name@, d.version) {
        None => r matches ToolResponse::Error(e) && e.severity == ToolErrorSeverity::Fatal
            && e.code@ == "no-reference-executor"@,
        Some(kind) => reference_answers(kind, request.arguments@, r),
    }
}

/// One more invocation, saturating.
pub open spec fn invocations_after(n: nat) -> nat {
    if n < usize::MAX { n + 1 } else { n }
}

/// Validates `request` against `definition`, runs it on the reference
/// executor and checks what came back. A request that fails validation
/// never reaches the executor.
pub fn invoke_validated_reference(
    definition: &ToolDefinition,
    request: &ToolRequest,
    executor: &mut ReferenceToolExecutor,
) -> (r: ToolResponse)
    ensures
        r.spec_call_id() == request.call_id@,
        forall|name: Seq<char>, version: u32| #[trigger] final(executor).kind_of(name, version) == old(executor).kind_of(name, version),
        !(definition_valid(*definition) && request_matches(*request, *definition)) ==> {
            &&& *final(executor) == *old(executor)
            &&& r matches ToolResponse::Error(e) && e.severity == ToolErrorSeverity::Fatal
                && e.code@ == "protocol-validation"@
        },
        definition_valid(*definition) && request_matches(*request, *definition) ==> {
            &&& final(executor).spec_invocations() == invocations_after(old(executor).spec_invocations())
            &&& exists|response: ToolResponse| reference_response(*old(executor), *definition, *request, response)
                && #[trigger] checked_response(response, *definition, request.call_id@, r)
        },
{
    match request.validate_against(definition) {
        Err(error) => {
            let m = error.message();
            return ToolResponse::error(request.call_id.as_str(), ToolErrorSeverity::Fatal, "protocol-validation", m.as_str());
        },
        Ok(()) => {},
    }
    let ghost ex0 = *executor;
    let response = executor.execute(validated_call(definition, request));
    let ghost answered = response;
    let r = check_response(definition, request.call_id.as_str(), response);
    assert(reference_response(ex0, *definition, *request, answered));
    assert(checked_response(answered, *definition, request.call_id@, r));
    r
}

} // verus!
