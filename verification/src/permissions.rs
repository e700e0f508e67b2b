//! Authorization gate in front of tool execution: a catalog of known
//! definitions, an allowlist policy, explicit confirmation of mutative
//! tools, and an audit entry for every call that reaches the authorization step.

use vstd::prelude::*;
use crate::text::{join2, same_text, string_from};
use crate::tool_registry::{invocations_after, invoke_validated_reference, reference_response, ReferenceToolExecutor};
use crate::tool_protocol::{
    checked_response,
    definition_valid, invoke_validated, request_matches, response_valid_for, same_definition, ToolDefinition,
    ToolErrorSeverity, ToolExecutor, ToolRequest, ToolResponse,
};

verus! {

/// Why a call was let through or refused.
#[derive(Clone, Copy, Debug, PartialEq, Eq)]
pub enum AuthorizationReason {
    Allowed,
    UnknownTool,
    NotAllowlisted,
    ConfirmationRequired,
}

impl AuthorizationReason {
    pub fn as_str(self) -> (r: &'static str)
        ensures
            r@ == self.spec_name(),
    {
        match self {
            AuthorizationReason::Allowed => "allowed",
            AuthorizationReason::UnknownTool => "unknown-tool",
            AuthorizationReason::NotAllowlisted => "not-allowlisted",
            AuthorizationReason::ConfirmationRequired => "confirmation-required",
        }
    }

    pub open spec fn spec_name(self) -> Seq<char> {
        match self {
            AuthorizationReason::Allowed => "allowed"@,
            AuthorizationReason::UnknownTool => "unknown-tool"@,
            AuthorizationReason::NotAllowlisted => "not-allowlisted"@,
            AuthorizationReason::ConfirmationRequired => "confirmation-required"@,
        }
    }
}

/// Tools allowed by `name@version` and capabilities allowed wholesale.
#[derive(Clone, Debug)]
pub struct PermissionPolicy {
    pub allowed_tools: Vec<(String, u32)>,
    pub allowed_capabilities: Vec<String>,
}

impl PermissionPolicy {
    /// Allows nothing.
    pub fn default() -> (r: PermissionPolicy)
        ensures
            r.allowed_tools@.len() == 0,
            r.allowed_capabilities@.len() == 0,
    {
        PermissionPolicy { allowed_tools: Vec::new(), allowed_capabilities: Vec::new() }
    }

    /// The policy with `name@version` allowed too.
    pub fn allow_tool(self, name: &str, version: u32) -> (r: PermissionPolicy)
        ensures
            r.allowed_tools@.len() == self.allowed_tools@.len() + 1,
            forall|i: int| 0 <= i < self.allowed_tools@.len() ==> #[trigger] r.allowed_tools@[i] == self.allowed_tools@[i],
            r.allowed_tools@.last().0@ == name@ && r.allowed_tools@.last().1 == version,
            r.allowed_capabilities == self.allowed_capabilities,
    {
        let mut p = self;
        p.allowed_tools.push((string_from(name), version));
        p
    }

    /// The policy with every tool of `capability` allowed too.
    pub fn allow_capability(self, capability: &str) -> (r: PermissionPolicy)
        ensures
            r.allowed_capabilities@.len() == self.allowed_capabilities@.len() + 1,
            forall|i: int| 0 <= i < self.allowed_capabilities@.len() ==> #[trigger] r.allowed_capabilities@[i] == self.allowed_capabilities@[i],
            r.allowed_capabilities@.last()@ == capability@,
            r.allowed_tools == self.allowed_tools,
    {
        let mut p = self;
        p.allowed_capabilities.push(string_from(capability));
        p
    }

    /// The definition is allowlisted by name and version or by capability.
    pub open spec fn allows(self, d: ToolDefinition) -> bool {
        ||| exists|i: int| 0 <= i < self.allowed_tools@.len()
            && (#[trigger] self.allowed_tools@[i]).0@ == d.name@ && self.allowed_tools@[i].1 == d.version
        ||| exists|i: int| 0 <= i < self.allowed_capabilities@.len()
            && (#[trigger] self.allowed_capabilities@[i])@ == d.capability@
    }

    pub fn permits(&self, d: &ToolDefinition) -> (r: bool)
        ensures
            r == self.allows(*d),
    {
        let mut i: usize = 0;
        while i < self.allowed_tools.len()
            invariant
                i <= self.allowed_tools.len(),
                forall|k: int| 0 <= k < i ==> !((#[trigger] self.allowed_tools@[k]).0@ == d.name@ && self.allowed_tools@[k].1 == d.version),
            decreases self.allowed_tools.len() - i,
        {
            if self.allowed_tools[i].1 == d.version && same_text(self.allowed_tools[i].0.as_str(), d.name.as_str()) {
                return true;
            }
            i = i + 1;
        }
        let mut j: usize = 0;
        while j < self.allowed_capabilities.len()
            invariant
                j <= self.allowed_capabilities.len(),
                forall|k: int| 0 <= k < j ==> (#[trigger] self.allowed_capabilities@[k])@ != d.capability@,
                forall|k: int| 0 <= k < self.allowed_tools@.len() ==> !((#[trigger] self.allowed_tools@[k]).0@ == d.name@ && self.allowed_tools@[k].1 == d.version),
            decreases self.allowed_capabilities.len() - j,
        {
            if same_text(self.allowed_capabilities[j].as_str(), d.capability.as_str()) {
                return true;
            }
            j = j + 1;
        }
        false
    }
}

/// One authorization decision.
#[derive(Clone, Debug)]
pub struct AuditEntry {
    pub call_id: String,
    pub tool: String,
    pub version: u32,
    pub reason: AuthorizationReason,
}

#[derive(Clone, Debug, PartialEq, Eq)]
pub enum PermissionError {
    InvalidCatalog(String),
    DuplicateTool(String),
}

/// The catalog definition of `name@version`, where there is one.
pub open spec fn catalog_index(c: Seq<ToolDefinition>, name: Seq<char>, version: u32, i: int) -> bool {
    0 <= i < c.len() && c[i].name@ == name && c[i].version == version
}

pub open spec fn in_catalog(c: Seq<ToolDefinition>, name: Seq<char>, version: u32) -> bool {
    exists|i: int| #[trigger] catalog_index(c, name, version, i)
}

/// Valid definitions, no tool twice.
pub open spec fn catalog_wf(c: Seq<ToolDefinition>) -> bool {
    &&& forall|i: int| 0 <= i < c.len() ==> definition_valid(#[trigger] c[i])
    &&& forall|i: int, j: int| 0 <= i < j < c.len() ==> !((#[trigger] c[i]).name@ == (#[trigger] c[j]).name@ && c[i].version == c[j].version)
}

/// What authorization decides for a request against a catalog and a policy.
pub open spec fn decision(c: Seq<ToolDefinition>, policy: PermissionPolicy, request: ToolRequest, confirmed: bool) -> AuthorizationReason {
    if !in_catalog(c, request.tool_name@, request.tool_version) {
        AuthorizationReason::UnknownTool
    } else {
        let d = c[choose|i: int| #[trigger] catalog_index(c, request.tool_name@, request.tool_version, i)];
        if !policy.allows(d) {
            AuthorizationReason::NotAllowlisted
        } else if d.mutative && !confirmed {
            AuthorizationReason::ConfirmationRequired
        } else {
            AuthorizationReason::Allowed
        }
    }
}

/// The catalog entry of the tool a request names.
pub open spec fn requested_definition(c: Seq<ToolDefinition>, request: ToolRequest) -> ToolDefinition {
    c[choose|i: int| #[trigger] catalog_index(c, request.tool_name@, request.tool_version, i)]
}

/// Authorization lets the call through to the executor: it is allowed and the
/// request matches the tool's definition.
pub open spec fn gate_reaches(c: Seq<ToolDefinition>, policy: PermissionPolicy, request: ToolRequest, confirmed: bool) -> bool {
    &&& decision(c, policy, request, confirmed) == AuthorizationReason::Allowed
    &&& definition_valid(requested_definition(c, request))
    &&& request_matches(request, requested_definition(c, request))
}

/// `r` is what authorization and the reference executor `ex` answer to
/// `request`: a fatal refusal named by the decision, a fatal
/// `protocol-validation` error for a request that does not match its
/// definition, or the checked reference answer.
pub open spec fn gate_answer(
    c: Seq<ToolDefinition>,
    policy: PermissionPolicy,
    ex: ReferenceToolExecutor,
    request: ToolRequest,
    confirmed: bool,
    r: ToolResponse,
) -> bool {
    &&& r.spec_call_id() == request.call_id@
    &&& if decision(c, policy, request, confirmed) != AuthorizationReason::Allowed {
        r matches ToolResponse::Error(e) && e.severity == ToolErrorSeverity::Fatal
            && e.code@ == decision(c, policy, request, confirmed).spec_name()
    } else if !gate_reaches(c, policy, request, confirmed) {
        r matches ToolResponse::Error(e) && e.severity == ToolErrorSeverity::Fatal && e.code@ == "protocol-validation"@
    } else {
        exists|response: ToolResponse| reference_response(ex, requested_definition(c, request), request, response)
            && #[trigger] checked_response(response, requested_definition(c, request), request.call_id@, r)
    }
}

pub struct AuthorizedToolRuntime {
    catalog: Vec<ToolDefinition>,
    policy: PermissionPolicy,
    audit: Vec<AuditEntry>,
}

impl AuthorizedToolRuntime {
    #[verifier::type_invariant]
    spec fn inv(self) -> bool {
        catalog_wf(self.catalog@)
    }

    pub closed spec fn spec_catalog(self) -> Seq<ToolDefinition> {
        self.catalog@
    }

    pub closed spec fn spec_policy(self) -> PermissionPolicy {
        self.policy
    }

    pub closed spec fn spec_audit(self) -> Seq<AuditEntry> {
        self.audit@
    }

    /// A gate over `catalog`; refused where a definition is invalid or a
    /// tool appears twice. The audit starts empty.
    pub fn new(catalog: Vec<ToolDefinition>, policy: PermissionPolicy) -> (r: Result<AuthorizedToolRuntime, PermissionError>)
        ensures
            r is Ok <==> catalog_wf(catalog@),
            r matches Ok(rt) ==> rt.spec_catalog() == catalog@ && rt.spec_policy() == policy && rt.spec_audit().len() == 0,
    {
        let mut i: usize = 0;
        while i < catalog.len()
            invariant
                i <= catalog.len(),
                forall|k: int| 0 <= k < i ==> definition_valid(#[trigger] catalog@[k]),
                forall|a: int, b: int| 0 <= a < b < i ==> !((#[trigger] catalog@[a]).name@ == (#[trigger] catalog@[b]).name@ && catalog@[a].version == catalog@[b].version),
            decreases catalog.len() - i,
        {
            match catalog[i].validate() {
                Ok(()) => {},
                Err(e) => {
                    return Err(PermissionError::InvalidCatalog(e.message()));
                },
            }
            let mut j: usize = 0;
            while j < i
                invariant
                    i < catalog.len(),
                    j <= i,
                    forall|a: int| 0 <= a < j ==> !((#[trigger] catalog@[a]).name@ == catalog@[i as int].name@ && catalog@[a].version == catalog@[i as int].version),
                decreases i - j,
            {
                if catalog[j].version == catalog[i].version && same_text(catalog[j].name.as_str(), catalog[i].name.as_str()) {
                    return Err(PermissionError::DuplicateTool(catalog[i].name.clone()));
                }
                j = j + 1;
            }
            i = i + 1;
        }
        Ok(AuthorizedToolRuntime { catalog, policy, audit: Vec::new() })
    }

    /// Replaces the policy; the catalog and the audit stay.
    pub fn set_policy(&mut self, policy: PermissionPolicy) -> (r: Result<(), PermissionError>)
        ensures
            r is Ok,
            final(self).spec_policy() == policy,
            final(self).spec_catalog() == old(self).spec_catalog(),
            final(self).spec_audit() == old(self).spec_audit(),
    {
        proof { use_type_invariant(&*self); }
        self.policy = policy;
        Ok(())
    }

    /// Every decision so far, oldest first.
    pub fn audit(&self) -> (r: &Vec<AuditEntry>)
        ensures
            r@ == self.spec_audit(),
    {
        &self.audit
    }

    fn lookup(&self, name: &str, version: u32) -> (r: Option<usize>)
        ensures
            r is None <==> !in_catalog(self.spec_catalog(), name@, version),
            r matches Some(i) ==> catalog_index(self.spec_catalog(), name@, version, i as int)
                && self.spec_catalog()[i as int] == self.spec_catalog()[choose|k: int| #[trigger] catalog_index(self.spec_catalog(), name@, version, k)],
    {
        proof { use_type_invariant(self); }
        let mut i: usize = 0;
        while i < self.catalog.len()
            invariant
                i <= self.catalog.len(),
                catalog_wf(self.catalog@),
                forall|k: int| 0 <= k < i ==> !(#[trigger] catalog_index(self.catalog@, name@, version, k)),
            decreases self.catalog.len() - i,
        {
            if self.catalog[i].version == version && same_text(self.catalog[i].name.as_str(), name) {
                proof {
                    assert(catalog_index(self.catalog@, name@, version, i as int));
                    let k = choose|k: int| #[trigger] catalog_index(self.catalog@, name@, version, k);
                    if k != i {
                        if k < i {
                            assert(!((self.catalog@[k]).name@ == (self.catalog@[i as int]).name@ && self.catalog@[k].version == self.catalog@[i as int].version));
                        } else {
                            assert(!((self.catalog@[i as int]).name@ == (self.catalog@[k]).name@ && self.catalog@[i as int].version == self.catalog@[k].version));
                        }
                    }
                }
                return Some(i);
            }
            i = i + 1;
        }
        None
    }

    /// Authorizes and runs one call. Unknown tools, tools outside the
    /// allowlist and unconfirmed mutative tools are refused with a fatal
    /// error before the executor is reached; every call adds one audit
    /// entry.
    pub fn invoke<E: ToolExecutor>(&mut self, request: &ToolRequest, confirmed: bool, executor: &mut E) -> (r: ToolResponse)
        ensures
            final(self).spec_catalog() == old(self).spec_catalog(),
            final(self).spec_policy() == old(self).spec_policy(),
            final(self).spec_audit().len() == old(self).spec_audit().len() + 1,
            final(self).spec_audit().drop_last() == old(self).spec_audit(),
            final(self).spec_audit().last().reason == decision(old(self).spec_catalog(), old(self).spec_policy(), *request, confirmed),
            final(self).spec_audit().last().call_id@ == request.call_id@,
            final(self).spec_audit().last().tool@ == request.tool_name@,
            final(self).spec_audit().last().version == request.tool_version,
            r.spec_call_id() == request.call_id@,
            decision(old(self).spec_catalog(), old(self).spec_policy(), *request, confirmed) != AuthorizationReason::Allowed ==> {
                &&& *final(executor) == *old(executor)
                &&& r matches ToolResponse::Error(e) && e.severity == ToolErrorSeverity::Fatal
                    && e.code@ == decision(old(self).spec_catalog(), old(self).spec_policy(), *request, confirmed).spec_name()
            },
            decision(old(self).spec_catalog(), old(self).spec_policy(), *request, confirmed) == AuthorizationReason::Allowed
                && !gate_reaches(old(self).spec_catalog(), old(self).spec_policy(), *request, confirmed) ==> {
                &&& *final(executor) == *old(executor)
                &&& r matches ToolResponse::Error(e) && e.severity == ToolErrorSeverity::Fatal && e.code@ == "protocol-validation"@
            },
            gate_reaches(old(self).spec_catalog(), old(self).spec_policy(), *request, confirmed) ==> {
                let d = requested_definition(old(self).spec_catalog(), *request);
                exists|response: ToolResponse| #[trigger] checked_response(response, d, request.call_id@, r)
                    && old(executor).executes(d, *request, response, *final(executor))
            },
    {
        proof { use_type_invariant(&*self); }
        let reason = match self.lookup(request.tool_name.as_str(), request.tool_version) {
            None => AuthorizationReason::UnknownTool,
            Some(i) => {
                if !self.policy.permits(&self.catalog[i]) {
                    AuthorizationReason::NotAllowlisted
                } else if self.catalog[i].mutative && !confirmed {
                    AuthorizationReason::ConfirmationRequired
                } else {
                    AuthorizationReason::Allowed
                }
            },
        };
        let mut audit: Vec<AuditEntry> = Vec::new();
        std::mem::swap(&mut audit, &mut self.audit);
        audit.push(AuditEntry {
            call_id: request.call_id.clone(),
            tool: request.tool_name.clone(),
            version: request.tool_version,
            reason,
        });
        self.audit = audit;
        match reason {
            AuthorizationReason::Allowed => {
                let i = match self.lookup(request.tool_name.as_str(), request.tool_version) {
                    Some(i) => i,
                    None => {
                        return ToolResponse::error(request.call_id.as_str(), ToolErrorSeverity::Fatal, "unknown-tool", "tool is not in the catalog");
                    },
                };
                invoke_validated(&self.catalog[i], request, executor)
            },
            AuthorizationReason::UnknownTool => ToolResponse::error(
                request.call_id.as_str(),
                ToolErrorSeverity::Fatal,
                "unknown-tool",
                "tool is not in the catalog",
            ),
            AuthorizationReason::NotAllowlisted => ToolResponse::error(
                request.call_id.as_str(),
                ToolErrorSeverity::Fatal,
                "not-allowlisted",
                "tool is not allowed by the permission policy",
            ),
            AuthorizationReason::ConfirmationRequired => ToolResponse::error(
                request.call_id.as_str(),
                ToolErrorSeverity::Fatal,
                "confirmation-required",
                "mutative tool call needs explicit confirmation",
            ),
        }
    }

    /// Authorizes one call as `invoke` does and runs it on the reference
    /// executor.
    pub fn invoke_reference(&mut self, request: &ToolRequest, confirmed: bool, executor: &mut ReferenceToolExecutor) -> (r: ToolResponse)
        ensures
            final(self).spec_catalog() == old(self).spec_catalog(),
            final(self).spec_policy() == old(self).spec_policy(),
            final(self).spec_audit().len() == old(self).spec_audit().len() + 1,
            final(self).spec_audit().drop_last() == old(self).spec_audit(),
            final(self).spec_audit().last().reason == decision(old(self).spec_catalog(), old(self).spec_policy(), *request, confirmed),
            final(self).spec_audit().last().call_id@ == request.call_id@,
            final(self).spec_audit().last().tool@ == request.tool_name@,
            final(self).spec_audit().last().version == request.tool_version,
            r.spec_call_id() == request.call_id@,
            decision(old(self).spec_catalog(), old(self).spec_policy(), *request, confirmed) != AuthorizationReason::Allowed ==> {
                &&& *final(executor) == *old(executor)
                &&& r matches ToolResponse::Error(e) && e.severity == ToolErrorSeverity::Fatal
                    && e.code@ == decision(old(self).spec_catalog(), old(self).spec_policy(), *request, confirmed).spec_name()
            },
            gate_answer(old(self).spec_catalog(), old(self).spec_policy(), *old(executor), *request, confirmed, r),
            final(executor).spec_invocations() == (if gate_reaches(old(self).spec_catalog(), old(self).spec_policy(), *request, confirmed) {
                invocations_after(old(executor).spec_invocations()) } else { old(executor).spec_invocations() }),
            forall|name: Seq<char>, version: u32| #[trigger] final(executor).kind_of(name, version) == old(executor).kind_of(name, version),
    {
        proof { use_type_invariant(&*self); }
        let reason = match self.lookup(request.tool_name.as_str(), request.tool_version) {
            None => AuthorizationReason::UnknownTool,
            Some(i) => {
                if !self.policy.permits(&self.catalog[i]) {
                    AuthorizationReason::NotAllowlisted
                } else if self.catalog[i].mutative && !confirmed {
                    AuthorizationReason::ConfirmationRequired
                } else {
                    AuthorizationReason::Allowed
                }
            },
        };
        let mut audit: Vec<AuditEntry> = Vec::new();
        std::mem::swap(&mut audit, &mut self.audit);
        audit.push(AuditEntry {
            call_id: request.call_id.clone(),
            tool: request.tool_name.clone(),
            version: request.tool_version,
            reason,
        });
        self.audit = audit;
        match reason {
            AuthorizationReason::Allowed => {
                let i = match self.lookup(request.tool_name.as_str(), request.tool_version) {
                    Some(i) => i,
                    None => {
                        return ToolResponse::error(request.call_id.as_str(), ToolErrorSeverity::Fatal, "unknown-tool", "tool is not in the catalog");
                    },
                };
                invoke_validated_reference(&self.catalog[i], request, executor)
            },
            AuthorizationReason::UnknownTool => ToolResponse::error(
                request.call_id.as_str(),
                ToolErrorSeverity::Fatal,
                "unknown-tool",
                "tool is not in the catalog",
            ),
            AuthorizationReason::NotAllowlisted => ToolResponse::error(
                request.call_id.as_str(),
                ToolErrorSeverity::Fatal,
                "not-allowlisted",
                "tool is not allowed by the permission policy",
            ),
            AuthorizationReason::ConfirmationRequired => ToolResponse::error(
                request.call_id.as_str(),
                ToolErrorSeverity::Fatal,
                "confirmation-required",
                "mutative tool call needs explicit confirmation",
            ),
        }
    }
}

} // verus!
