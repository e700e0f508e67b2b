//! Tool provider boundary. A provider can list, describe and invoke tools;
//! it grants no permissions, authorization stays in the permission runtime.

use vstd::prelude::*;
use crate::text::{join2, join3, same_text, string_from};
use crate::tool_protocol::{
    copy_definition, definition_valid, same_definition, ToolArgKind, ToolArgSpec, ToolDefinition,
    ToolProtocolError, TOOL_PROTOCOL_SCHEMA_VERSION,
};
use crate::tool_registry::ToolListing;

verus! {

pub const TOOL_PROVIDER_SCHEMA_VERSION: u32 = 1;

#[derive(Clone, Debug, PartialEq, Eq)]
pub enum ProviderError {
    UnknownTool(String),
    Incompatible(u32),
    Timeout,
    Cancelled,
    Protocol(String),
}

impl ProviderError {
    /// Human-readable text of the error (its `Display` form).
    pub fn message(&self) -> (r: String)
        ensures
            r@ == (match self {
                ProviderError::UnknownTool(n) => "unknown tool "@ + n@,
                ProviderError::Incompatible(_) => r@,
                ProviderError::Timeout => "provider timeout"@,
                ProviderError::Cancelled => "provider cancelled"@,
                ProviderError::Protocol(m) => "protocol: "@ + m@,
            }),
            self matches ProviderError::Incompatible(v) ==> r@ == "incompatible provider schema "@ + crate::text::dec(v as nat),
    {
        match self {
            ProviderError::UnknownTool(n) => join2("unknown tool ", n.as_str()),
            ProviderError::Incompatible(v) => {
                let mut m = string_from("incompatible provider schema ");
                crate::text::push_u64(&mut m, *v as u64);
                m
            },
            ProviderError::Timeout => string_from("provider timeout"),
            ProviderError::Cancelled => string_from("provider cancelled"),
            ProviderError::Protocol(m) => join2("protocol: ", m.as_str()),
        }
    }

    /// A protocol error carried into the provider's error type.
    pub fn from_protocol(err: ToolProtocolError) -> (r: ProviderError)
        ensures
            r is Protocol,
    {
        ProviderError::Protocol(err.message())
    }
}

#[derive(Clone, Debug, PartialEq, Eq)]
pub struct ProviderCall {
    pub call_id: String,
    pub tool_name: String,
    pub tool_version: u32,
    pub payload: String,
    pub timeout_ms: u64,
    pub cancelled: bool,
}

/// A source of tools: list, describe, negotiate a schema, invoke.
///
/// The spec functions say which answers a provider may give; a provider
/// that says nothing of its answers admits every one.
pub trait ToolProvider: Sized {
    /// `r` is an answer this provider may give to `negotiate(requested)`.
    open spec fn negotiates(&self, requested: u32, r: Result<u32, ProviderError>) -> bool {
        true
    }

    /// `r` is a listing this provider may give.
    open spec fn lists(&self, r: Seq<ToolListing>) -> bool {
        true
    }

    /// `r` is an answer this provider may give to `describe(name, version)`.
    open spec fn describes(&self, name: Seq<char>, version: u32, r: Option<ToolDefinition>) -> bool {
        true
    }

    /// `r` is an answer this provider may give to `call`, leaving it as `after`.
    open spec fn invokes(&self, call: ProviderCall, r: Result<String, ProviderError>, after: Self) -> bool {
        true
    }

    fn id(&self) -> &str;

    fn schema_version(&self) -> u32;

    fn list(&self) -> (r: Vec<ToolListing>)
        ensures
            self.lists(r@);

    fn describe(&self, name: &str, version: u32) -> (r: Option<ToolDefinition>)
        ensures
            self.describes(name@, version, r);

    fn negotiate(&self, requested: u32) -> (r: Result<u32, ProviderError>)
        ensures
            self.negotiates(requested, r);

    fn invoke(&mut self, call: &ProviderCall) -> (r: Result<String, ProviderError>)
        ensures
            old(self).invokes(*call, r, *final(self));
}

/// A provider with the single tool `provider.echo`, answering
/// `<id>:<payload>`.
#[derive(Clone, Debug)]
pub struct MockProvider {
    id: String,
    tools: Vec<ToolDefinition>,
    invocations: u64,
}

impl MockProvider {
    pub closed spec fn spec_id(self) -> Seq<char> {
        self.id@
    }

    pub closed spec fn spec_tools(self) -> Seq<ToolDefinition> {
        self.tools@
    }

    pub closed spec fn spec_invocations(self) -> u64 {
        self.invocations
    }

    /// The echo provider named `id`, with no invocations yet.
    pub fn echo(id: &str) -> (r: Result<MockProvider, ProviderError>)
        ensures
            r is Ok,
            r matches Ok(p) ==> p.spec_id() == id@ && p.spec_invocations() == 0 && p.spec_tools().len() == 1
                && definition_valid(p.spec_tools()[0]) && p.spec_tools()[0].name@ == "provider.echo"@
                && p.spec_tools()[0].version == 1 && p.spec_tools()[0].capability@ == "echo"@
                && !p.spec_tools()[0].mutative && p.spec_tools()[0].timeout_ms == 50
                && p.spec_tools()[0].max_result_bytes == 256 && p.spec_tools()[0].args@.len() == 1
                && p.spec_tools()[0].args@[0].name@ == "text"@ && p.spec_tools()[0].args@[0].required
                && p.spec_tools()[0].args@[0].kind == (ToolArgKind::String { min_len: 0, max_len: 64 }),
    {
        proof {
            reveal_strlit("provider.echo");
            reveal_strlit("echo");
            reveal_strlit("text");
        }
        let mut args: Vec<ToolArgSpec> = Vec::new();
        args.push(ToolArgSpec {
            name: string_from("text"),
            kind: ToolArgKind::String { min_len: 0, max_len: 64 },
            required: true,
        });
        let definition = match ToolDefinition::new("provider.echo", 1, "echo", false, 50, 256, args) {
            Ok(d) => d,
            Err(e) => {
                return Err(ProviderError::from_protocol(e));
            },
        };
        let mut tools: Vec<ToolDefinition> = Vec::new();
        tools.push(definition);
        Ok(MockProvider { id: string_from(id), tools, invocations: 0 })
    }

    pub fn invocations(&self) -> (r: u64)
        ensures
            r == self.spec_invocations(),
    {
        self.invocations
    }

    fn find(&self, name: &str, version: u32) -> (r: Option<usize>)
        ensures
            r matches Some(i) ==> first_tool(self.tools@, name@, version, i as int),
            r is None ==> forall|i: int| 0 <= i < self.tools@.len() ==> !(self.tools@[i].name@ == name@ && self.tools@[i].version == version),
    {
        let mut i: usize = 0;
        while i < self.tools.len()
            invariant
                i <= self.tools.len(),
                forall|k: int| 0 <= k < i ==> !(self.tools@[k].name@ == name@ && self.tools@[k].version == version),
            decreases self.tools.len() - i,
        {
            if self.tools[i].version == version && same_text(self.tools[i].name.as_str(), name) {
                return Some(i);
            }
            i = i + 1;
        }
        None
    }
}

/// `i` is the first tool named `name` at `version`.
pub open spec fn first_tool(tools: Seq<ToolDefinition>, name: Seq<char>, version: u32, i: int) -> bool {
    &&& 0 <= i < tools.len()
    &&& tools[i].name@ == name
    &&& tools[i].version == version
    &&& forall|k: int| 0 <= k < i ==> !((#[trigger] tools[k]).name@ == name && tools[k].version == version)
}

/// The provider has a tool `name@version`.
pub open spec fn provides(tools: Seq<ToolDefinition>, name: Seq<char>, version: u32) -> bool {
    exists|i: int| 0 <= i < tools.len() && (#[trigger] tools[i]).name@ == name && tools[i].version == version
}

impl ToolProvider for MockProvider {
    /// Only the provider's own schema is accepted.
    open spec fn negotiates(&self, requested: u32, r: Result<u32, ProviderError>) -> bool {
        if requested == TOOL_PROVIDER_SCHEMA_VERSION {
            r == Ok::<u32, ProviderError>(TOOL_PROVIDER_SCHEMA_VERSION)
        } else {
            r == Err::<u32, ProviderError>(ProviderError::Incompatible(requested))
        }
    }

    /// One listing per tool, in order.
    open spec fn lists(&self, r: Seq<ToolListing>) -> bool {
        &&& r.len() == self.spec_tools().len()
        &&& forall|i: int| 0 <= i < r.len() ==> (#[trigger] r[i]).name@ == self.spec_tools()[i].name@
            && r[i].version == self.spec_tools()[i].version
            && r[i].capability@ == self.spec_tools()[i].capability@
            && r[i].mutative == self.spec_tools()[i].mutative
    }

    /// A copy of the tool of that name and version, if there is one.
    open spec fn describes(&self, name: Seq<char>, version: u32, r: Option<ToolDefinition>) -> bool {
        &&& (r is Some <==> provides(self.spec_tools(), name, version))
        &&& (r matches Some(d) ==> exists|i: int| 0 <= i < self.spec_tools().len()
            && same_definition(self.spec_tools()[i], d) && d.name@ == name && d.version == version)
    }

    /// A cancelled call, an unknown tool and a timeout outside
    /// `1..=timeout_ms` of the tool fail; otherwise the call is counted and
    /// answered with `<id>:<payload>`.
    open spec fn invokes(&self, call: ProviderCall, r: Result<String, ProviderError>, after: Self) -> bool {
        &&& after.spec_id() == self.spec_id()
        &&& after.spec_tools() == self.spec_tools()
        &&& if call.cancelled {
            r == Err::<String, ProviderError>(ProviderError::Cancelled) && after.spec_invocations() == self.spec_invocations()
        } else if !provides(self.spec_tools(), call.tool_name@, call.tool_version) {
            r matches Err(ProviderError::UnknownTool(n)) && n@ == call.tool_name@
                && after.spec_invocations() == self.spec_invocations()
        } else {
            forall|i: int| #[trigger] first_tool(self.spec_tools(), call.tool_name@, call.tool_version, i) ==> {
                if call.timeout_ms == 0 || call.timeout_ms > self.spec_tools()[i].timeout_ms {
                    r == Err::<String, ProviderError>(ProviderError::Timeout)
                        && after.spec_invocations() == self.spec_invocations()
                } else {
                    r matches Ok(v) && v@ == self.spec_id() + ":"@ + call.payload@
                        && after.spec_invocations() == if self.spec_invocations() < u64::MAX {
                            self.spec_invocations() + 1
                        } else {
                            self.spec_invocations() as int
                        }
                }
            }
        }
    }

    fn id(&self) -> (r: &str)
        ensures
            r@ == self.spec_id(),
    {
        self.id.as_str()
    }

    fn schema_version(&self) -> (r: u32)
        ensures
            r == TOOL_PROVIDER_SCHEMA_VERSION,
    {
        TOOL_PROVIDER_SCHEMA_VERSION
    }

    fn list(&self) -> (r: Vec<ToolListing>)
    {
        let mut out: Vec<ToolListing> = Vec::new();
        let mut i: usize = 0;
        while i < self.tools.len()
            invariant
                i <= self.tools.len(),
                out@.len() == i,
                forall|k: int| 0 <= k < i ==> (#[trigger] out@[k]).name@ == self.tools@[k].name@
                    && out@[k].version == self.tools@[k].version
                    && out@[k].capability@ == self.tools@[k].capability@
                    && out@[k].mutative == self.tools@[k].mutative,
            decreases self.tools.len() - i,
        {
            let d = &self.tools[i];
            out.push(ToolListing {
                name: d.name.clone(),
                version: d.version,
                capability: d.capability.clone(),
                mutative: d.mutative,
            });
            i = i + 1;
        }
        out
    }

    fn describe(&self, name: &str, version: u32) -> (r: Option<ToolDefinition>)
    {
        match self.find(name, version) {
            Some(i) => {
                let d = copy_definition(&self.tools[i]);
                assert(same_definition(self.tools@[i as int], d));
                assert(provides(self.spec_tools(), name@, version)) by {
                    assert(self.spec_tools()[i as int] == self.tools@[i as int]);
                }
                Some(d)
            },
            None => None,
        }
    }

    fn negotiate(&self, requested: u32) -> (r: Result<u32, ProviderError>)
    {
        if requested != TOOL_PROVIDER_SCHEMA_VERSION {
            return Err(ProviderError::Incompatible(requested));
        }
        Ok(TOOL_PROVIDER_SCHEMA_VERSION)
    }

    fn invoke(&mut self, call: &ProviderCall) -> (r: Result<String, ProviderError>)
    {
        if call.cancelled {
            return Err(ProviderError::Cancelled);
        }
        let i = match self.find(call.tool_name.as_str(), call.tool_version) {
            Some(i) => i,
            None => {
                return Err(ProviderError::UnknownTool(call.tool_name.clone()));
            },
        };
        assert(provides(self.tools@, call.tool_name@, call.tool_version)) by {
            assert(self.tools@[i as int].name@ == call.tool_name@);
        }
        assert forall|j: int| #[trigger] first_tool(self.tools@, call.tool_name@, call.tool_version, j) implies j == i by {
            if j < i {
                assert(!(self.tools@[j].name@ == call.tool_name@ && self.tools@[j].version == call.tool_version));
            } else if j > i {
                assert(!(self.tools@[i as int].name@ == call.tool_name@ && self.tools@[i as int].version == call.tool_version));
            }
        }
        if call.timeout_ms == 0 || call.timeout_ms > self.tools[i].timeout_ms {
            return Err(ProviderError::Timeout);
        }
        if self.invocations < u64::MAX {
            self.invocations = self.invocations + 1;
        }
        Ok(join3(self.id.as_str(), ":", call.payload.as_str()))
    }
}

/// `r` fails as a protocol error with the text `m`.
pub open spec fn protocol_error(r: Result<(), ProviderError>, m: Seq<char>) -> bool {
    r matches Err(ProviderError::Protocol(s)) && s@ == m
}

/// What checking a description against its listing answers.
pub open spec fn listing_answer(listing: ToolListing, definition: Option<ToolDefinition>, r: Result<(), ProviderError>) -> bool {
    match definition {
        None => r matches Err(ProviderError::UnknownTool(n)) && n@ == listing.name@,
        Some(d) => if !(d.name@ == listing.name@ && d.version == listing.version) {
            protocol_error(r, "describe drifted from list"@)
        } else if d.schema_version != TOOL_PROTOCOL_SCHEMA_VERSION {
            protocol_error(r, "tool schema drifted"@)
        } else {
            r is Ok
        },
    }
}

/// What checking the negotiation of a future schema answers.
pub open spec fn future_answer(outcome: Result<u32, ProviderError>, r: Result<(), ProviderError>) -> bool {
    match outcome {
        Ok(_) => protocol_error(r, "future schema must fail negotiation"@),
        Err(ProviderError::Incompatible(_)) => r is Ok,
        Err(other) => r == Err::<(), ProviderError>(other),
    }
}

/// What checking the answer to a cancelled call answers.
pub open spec fn cancel_answer(outcome: Result<String, ProviderError>, r: Result<(), ProviderError>) -> bool {
    if outcome matches Err(ProviderError::Cancelled) {
        r is Ok
    } else {
        protocol_error(r, "cancel was not propagated"@)
    }
}

/// Checks that a described definition agrees with its listing and the
/// protocol schema.
pub fn check_listing(listing: &ToolListing, definition: &Option<ToolDefinition>) -> (r: Result<(), ProviderError>)
    ensures
        listing_answer(*listing, *definition, r),
{
    match definition {
        None => Err(ProviderError::UnknownTool(listing.name.clone())),
        Some(d) => {
            if !same_text(d.name.as_str(), listing.name.as_str()) || d.version != listing.version {
                return Err(ProviderError::Protocol(string_from("describe drifted from list")));
            }
            if d.schema_version != TOOL_PROTOCOL_SCHEMA_VERSION {
                return Err(ProviderError::Protocol(string_from("tool schema drifted")));
            }
            Ok(())
        },
    }
}

/// The negotiation of a future schema must fail as incompatible.
pub fn check_future_negotiation(outcome: Result<u32, ProviderError>) -> (r: Result<(), ProviderError>)
    ensures
        future_answer(outcome, r),
{
    match outcome {
        Ok(_) => Err(ProviderError::Protocol(string_from("future schema must fail negotiation"))),
        Err(ProviderError::Incompatible(_)) => Ok(()),
        Err(other) => Err(other),
    }
}

/// A cancelled call must come back as `Cancelled`.
pub fn check_cancelled(outcome: &Result<String, ProviderError>) -> (r: Result<(), ProviderError>)
    ensures
        cancel_answer(*outcome, r),
{
    match outcome {
        Err(ProviderError::Cancelled) => Ok(()),
        _ => Err(ProviderError::Protocol(string_from("cancel was not propagated"))),
    }
}

/// `c` calls the listed tool under `call_id` with `payload` and a timeout
/// of one millisecond.
pub open spec fn is_contract_call(c: ProviderCall, listing: ToolListing, call_id: Seq<char>, payload: Seq<char>, cancelled: bool) -> bool {
    &&& c.call_id@ == call_id
    &&& c.tool_name@ == listing.name@
    &&& c.tool_version == listing.version
    &&& c.payload@ == payload
    &&& c.timeout_ms == 1
    &&& c.cancelled == cancelled
}

/// The call that the conformance run hands to a provider for a listed tool.
pub fn contract_call(listing: &ToolListing, call_id: &str, payload: &str, cancelled: bool) -> (c: ProviderCall)
    ensures
        is_contract_call(c, *listing, call_id@, payload@, cancelled),
{
    ProviderCall {
        call_id: string_from(call_id),
        tool_name: listing.name.clone(),
        tool_version: listing.version,
        payload: string_from(payload),
        timeout_ms: 1,
        cancelled,
    }
}

/// What a provider answered in one conformance run, in order, and the
/// provider after each of its two calls.
pub struct ProviderRun<P> {
    pub current: Result<u32, ProviderError>,
    pub future: Result<u32, ProviderError>,
    pub listed: Seq<ToolListing>,
    pub described: Seq<Option<ToolDefinition>>,
    pub call: ProviderCall,
    pub accepted: Result<String, ProviderError>,
    pub after_call: P,
    pub cancel: ProviderCall,
    pub cancelled: Result<String, ProviderError>,
    pub after_cancel: P,
}

/// The run past the listing: a call of the first listed tool, whose answer
/// must be non-empty, then a cancelled call, which must come back cancelled.
pub open spec fn invoke_stage<P: ToolProvider>(p: P, t: ProviderRun<P>, fin: P, r: Result<(), ProviderError>) -> bool {
    &&& is_contract_call(t.call, t.listed[0], "contract-1"@, "ok"@, false)
    &&& p.invokes(t.call, t.accepted, t.after_call)
    &&& match t.accepted {
        Err(e) => r == Err::<(), ProviderError>(e) && fin == t.after_call,
        Ok(v) => if v@.len() == 0 {
            protocol_error(r, "empty invoke result"@) && fin == t.after_call
        } else {
            &&& is_contract_call(t.cancel, t.listed[0], "contract-cancel"@, "late"@, true)
            &&& t.after_call.invokes(t.cancel, t.cancelled, t.after_cancel)
            &&& cancel_answer(t.cancelled, r)
            &&& fin == t.after_cancel
        },
    }
}

/// `r` is what the conformance run of `p` answers, and `fin` the provider
/// after it, when the provider gave the answers in `t`: the run stops at
/// the first check that fails and answers its error.
pub open spec fn contract_run<P: ToolProvider>(p: P, t: ProviderRun<P>, fin: P, r: Result<(), ProviderError>) -> bool {
    &&& p.negotiates(TOOL_PROVIDER_SCHEMA_VERSION, t.current)
    &&& match t.current {
        Err(e) => r == Err::<(), ProviderError>(e) && fin == p,
        Ok(_) => {
            &&& p.negotiates((TOOL_PROVIDER_SCHEMA_VERSION + 1) as u32, t.future)
            &&& if !(t.future matches Err(ProviderError::Incompatible(_))) {
                future_answer(t.future, r) && fin == p
            } else {
                &&& p.lists(t.listed)
                &&& if t.listed.len() == 0 {
                    protocol_error(r, "provider listed no tools"@) && fin == p
                } else {
                    &&& 0 < t.described.len() <= t.listed.len()
                    &&& forall|k: int| 0 <= k < t.described.len()
                        ==> p.describes(t.listed[k].name@, t.listed[k].version, #[trigger] t.described[k])
                    &&& forall|k: int| 0 <= k < t.described.len() - 1
                        ==> listing_answer(t.listed[k], #[trigger] t.described[k], Ok(()))
                    &&& if !listing_answer(t.listed[t.described.len() - 1], t.described.last(), Ok(())) {
                        listing_answer(t.listed[t.described.len() - 1], t.described.last(), r) && fin == p
                    } else {
                        t.described.len() == t.listed.len() && invoke_stage(p, t, fin, r)
                    }
                }
            }
        },
    }
}

/// The reusable contract every provider must pass: schema negotiation,
/// a non-empty listing that `describe` agrees with, a successful call of the
/// first tool and a propagated cancellation. What the provider answers is
/// its own; the run is stated for every answer it may give.
pub fn run_provider_contract<P: ToolProvider>(provider: &mut P) -> (r: Result<(), ProviderError>)
    ensures
        exists|t: ProviderRun<P>| #[trigger] contract_run(*old(provider), t, *final(provider), r),
{
    let ghost p0 = *provider;
    let ghost mut t: ProviderRun<P> = vstd::pervasive::arbitrary();
    let current = provider.negotiate(TOOL_PROVIDER_SCHEMA_VERSION);
    proof {
        t.current = current;
    }
    if let Err(e) = current {
        let out: Result<(), ProviderError> = Err(e);
        assert(contract_run(p0, t, *provider, out));
        return out;
    }
    let future = provider.negotiate(TOOL_PROVIDER_SCHEMA_VERSION + 1);
    proof {
        t.future = future;
    }
    let verdict = check_future_negotiation(future);
    if verdict.is_err() {
        assert(contract_run(p0, t, *provider, verdict));
        return verdict;
    }
    let listed = provider.list();
    proof {
        t.listed = listed@;
        t.described = Seq::empty();
    }
    if listed.len() == 0 {
        let out: Result<(), ProviderError> = Err(ProviderError::Protocol(string_from("provider listed no tools")));
        assert(contract_run(p0, t, *provider, out));
        return out;
    }
    let mut i: usize = 0;
    while i < listed.len()
        invariant
            i <= listed.len(),
            0 < listed.len(),
            *provider == p0,
            p0.negotiates(TOOL_PROVIDER_SCHEMA_VERSION, t.current),
            t.current is Ok,
            p0.negotiates((TOOL_PROVIDER_SCHEMA_VERSION + 1) as u32, t.future),
            t.future matches Err(ProviderError::Incompatible(_)),
            p0.lists(t.listed),
            t.listed == listed@,
            t.described.len() == i,
            forall|k: int| 0 <= k < i
                ==> p0.describes(t.listed[k].name@, t.listed[k].version, #[trigger] t.described[k]),
            forall|k: int| 0 <= k < i ==> listing_answer(t.listed[k], #[trigger] t.described[k], Ok(())),
        decreases listed.len() - i,
    {
        let described = provider.describe(listed[i].name.as_str(), listed[i].version);
        let checked = check_listing(&listed[i], &described);
        proof {
            t.described = t.described.push(described);
            assert(t.described[i as int] == described);
        }
        if checked.is_err() {
            assert(contract_run(p0, t, *provider, checked));
            return checked;
        }
        i = i + 1;
    }
    let call = contract_call(&listed[0], "contract-1", "ok", false);
    let accepted = provider.invoke(&call);
    proof {
        t.call = call;
        t.accepted = accepted;
        t.after_call = *provider;
    }
    let v = match accepted {
        Err(e) => {
            let out: Result<(), ProviderError> = Err(e);
            assert(contract_run(p0, t, *provider, out));
            return out;
        },
        Ok(v) => v,
    };
    if v.as_str().unicode_len() == 0 {
        let out: Result<(), ProviderError> = Err(ProviderError::Protocol(string_from("empty invoke result")));
        assert(contract_run(p0, t, *provider, out));
        return out;
    }
    let cancel = contract_call(&listed[0], "contract-cancel", "late", true);
    let cancelled = provider.invoke(&cancel);
    proof {
        t.cancel = cancel;
        t.cancelled = cancelled;
        t.after_cancel = *provider;
    }
    let out = check_cancelled(&cancelled);
    assert(contract_run(p0, t, *provider, out));
    out
}

} // verus!
