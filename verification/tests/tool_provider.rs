use auralis::permissions::{AuthorizedToolRuntime, PermissionPolicy};
use auralis::tool_protocol::{ToolArgument, ToolRequest, ToolResponse, ToolValue, TOOL_PROTOCOL_SCHEMA_VERSION};
use auralis::tool_protocol::ToolDefinition;
use auralis::tool_provider::{contract_call, run_provider_contract, MockProvider, ProviderCall, ProviderError, ToolProvider};
use auralis::tool_registry::ToolListing;
use auralis::tool_registry::ToolRegistry;

#[test]
fn mock_provider_passes_reusable_contract() {
    let mut provider = MockProvider::echo("mock-a").unwrap();
    run_provider_contract(&mut provider).unwrap();
    assert!(provider.invocations() >= 1);
}

#[test]
fn providers_are_isolated_and_do_not_grant_permissions() {
    let mut a = MockProvider::echo("a").unwrap();
    let b = MockProvider::echo("b").unwrap();
    a.invoke(&ProviderCall {
        call_id: "1".into(),
        tool_name: "provider.echo".into(),
        tool_version: 1,
        payload: "x".into(),
        timeout_ms: 1,
        cancelled: false,
    })
    .unwrap();
    assert_eq!(a.invocations(), 1);
    assert_eq!(b.invocations(), 0);

    let registry = ToolRegistry::with_reference_tools().unwrap();
    let policy = PermissionPolicy::default();
    let mut runtime = AuthorizedToolRuntime::new(registry.catalog(), policy).unwrap();
    let mut executor = registry.reference_executor();
    let request = ToolRequest {
        schema_version: TOOL_PROTOCOL_SCHEMA_VERSION,
        call_id: "no-grant".into(),
        tool_name: "ref.echo".into(),
        tool_version: 1,
        arguments: vec![ToolArgument { name: "text".into(), value: ToolValue::String("hi".into()) }],
    };
    let response = runtime.invoke(&request, false, &mut executor);
    assert!(matches!(response, ToolResponse::Error(_)));
}

#[test]
fn provider_cancelled_call_is_refused() {
    let mut a = MockProvider::echo("a").unwrap();
    let call = ProviderCall {
        call_id: "2".into(),
        tool_name: "provider.echo".into(),
        tool_version: 1,
        payload: "x".into(),
        timeout_ms: 1,
        cancelled: true,
    };
    assert!(a.invoke(&call).is_err());
    assert!(a.negotiate(999).is_err());
}

#[test]
fn contract_call_names_the_listed_tool() {
    let listing = ToolListing { name: "provider.echo".into(), version: 3, capability: "echo".into(), mutative: false };
    let call = contract_call(&listing, "contract-cancel", "late", true);
    assert_eq!(call.call_id, "contract-cancel");
    assert_eq!(call.tool_name, "provider.echo");
    assert_eq!(call.tool_version, 3);
    assert_eq!(call.payload, "late");
    assert_eq!(call.timeout_ms, 1);
    assert!(call.cancelled);
}

/// A provider that answers every call, cancelled or not.
struct DeafProvider {
    inner: MockProvider,
}

impl ToolProvider for DeafProvider {
    fn id(&self) -> &str {
        self.inner.id()
    }

    fn schema_version(&self) -> u32 {
        self.inner.schema_version()
    }

    fn list(&self) -> Vec<ToolListing> {
        self.inner.list()
    }

    fn describe(&self, name: &str, version: u32) -> Option<ToolDefinition> {
        self.inner.describe(name, version)
    }

    fn negotiate(&self, requested: u32) -> Result<u32, ProviderError> {
        self.inner.negotiate(requested)
    }

    fn invoke(&mut self, call: &ProviderCall) -> Result<String, ProviderError> {
        let mut live = call.clone();
        live.cancelled = false;
        self.inner.invoke(&live)
    }
}

#[test]
fn provider_ignoring_cancellation_fails_the_contract() {
    let mut provider = DeafProvider { inner: MockProvider::echo("deaf").unwrap() };
    let verdict = run_provider_contract(&mut provider);
    assert_eq!(verdict, Err(ProviderError::Protocol("cancel was not propagated".into())));
    assert_eq!(provider.inner.invocations(), 2);
}

/// A provider that accepts any schema.
struct LaxProvider {
    inner: MockProvider,
}

impl ToolProvider for LaxProvider {
    fn id(&self) -> &str {
        self.inner.id()
    }

    fn schema_version(&self) -> u32 {
        self.inner.schema_version()
    }

    fn list(&self) -> Vec<ToolListing> {
        self.inner.list()
    }

    fn describe(&self, name: &str, version: u32) -> Option<ToolDefinition> {
        self.inner.describe(name, version)
    }

    fn negotiate(&self, requested: u32) -> Result<u32, ProviderError> {
        Ok(requested)
    }

    fn invoke(&mut self, call: &ProviderCall) -> Result<String, ProviderError> {
        self.inner.invoke(call)
    }
}

#[test]
fn provider_accepting_future_schema_fails_the_contract() {
    let mut provider = LaxProvider { inner: MockProvider::echo("lax").unwrap() };
    let verdict = run_provider_contract(&mut provider);
    assert_eq!(verdict, Err(ProviderError::Protocol("future schema must fail negotiation".into())));
    assert_eq!(provider.inner.invocations(), 0);
}
