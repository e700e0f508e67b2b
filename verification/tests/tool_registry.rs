use auralis::permissions::{AuthorizationReason, AuthorizedToolRuntime, PermissionPolicy};
use auralis::tool_protocol::{
    ToolArgKind, ToolArgSpec, ToolArgument, ToolDefinition, ToolErrorSeverity, ToolRequest, ToolResponse, ToolValue,
};
use auralis::tool_registry::{ToolRegistry, ToolRegistryError};

fn string_request(call: &str, tool: &str, arg: &str, value: &str) -> ToolRequest {
    ToolRequest::new(
        call,
        tool,
        1,
        vec![ToolArgument {
            name: arg.into(),
            value: ToolValue::String(value.into()),
        }],
    )
}

fn echo_request(text: &str) -> ToolRequest {
    string_request("session-1:call-1", "ref.echo", "text", text)
}

#[test]
fn reference_catalog_lists_capabilities_and_is_deterministic() {
    let registry = ToolRegistry::with_reference_tools().unwrap();
    let listed = registry.list();
    assert_eq!(listed.len(), 6);
    let names: Vec<&str> = listed.iter().map(|item| item.name.as_str()).collect();
    for name in [
        "lookup",
        "ref.add",
        "ref.echo",
        "ref.error",
        "ref.fixture",
        "ref.latency",
    ] {
        assert!(names.contains(&name), "reference registry missing {name}");
    }
    let caps = registry.capabilities();
    assert!(caps.iter().any(|c| c == "fixture.read"));
    assert!(caps.iter().any(|c| c == "math.read"));
    assert!(caps.iter().any(|c| c == "agent.lookup"));
    assert!(listed.iter().all(|item| !item.mutative));
    assert_eq!(
        registry.fingerprint(),
        ToolRegistry::with_reference_tools().unwrap().fingerprint()
    );
}

#[test]
fn register_unregister_resolve_preserves_mutation_metadata() {
    let mut registry = ToolRegistry::new();
    let custom = ToolDefinition::new(
        "custom.note",
        1,
        "custom.write",
        true,
        100,
        64,
        vec![],
    )
    .unwrap();
    registry.register_definition(custom).unwrap();
    assert!(registry.resolve("custom.note", 1).unwrap().mutative);
    assert!(registry.list()[0].mutative);
    assert!(matches!(
        registry.register_definition(
            ToolDefinition::new("custom.note", 1, "custom.write", true, 100, 64, vec![])
                .unwrap()
        ),
        Err(ToolRegistryError::Duplicate(_))
    ));
    registry.unregister("custom.note", 1).unwrap();
    assert!(registry.resolve("custom.note", 1).is_none());
    assert!(matches!(
        registry.unregister("custom.note", 1),
        Err(ToolRegistryError::Unknown(_))
    ));
}

#[test]
fn forbidden_external_effect_names_are_rejected() {
    let mut registry = ToolRegistry::new();
    for name in ["shell.rm", "net.fetch", "browser.open", "fs.read", "code.exec"] {
        let definition =
            ToolDefinition::new(name, 1, "unsafe.effect", true, 100, 64, vec![]).unwrap();
        assert!(matches!(
            registry.register_definition(definition),
            Err(ToolRegistryError::Forbidden(_))
        ));
    }
}

#[test]
fn permission_runtime_is_the_execution_gate() {
    let registry = ToolRegistry::with_reference_tools().unwrap();
    let mut runtime =
        AuthorizedToolRuntime::new(registry.catalog(), PermissionPolicy::default()).unwrap();
    let mut executor = registry.reference_executor();

    let denied = runtime.invoke(&echo_request("hello"), false, &mut executor);
    assert!(matches!(denied, ToolResponse::Error(_)));
    assert_eq!(executor.invocations(), 0);
    assert_eq!(
        runtime.audit().last().unwrap().reason,
        AuthorizationReason::NotAllowlisted
    );

    runtime
        .set_policy(PermissionPolicy::default().allow_tool("ref.echo", 1))
        .unwrap();
    assert_eq!(
        runtime.invoke(&echo_request("hello"), false, &mut executor),
        ToolResponse::result("session-1:call-1", "hello")
    );
    assert_eq!(executor.invocations(), 1);
}

#[test]
fn unknown_tool_fails_before_reference_executor() {
    let registry = ToolRegistry::with_reference_tools().unwrap();
    let mut runtime = AuthorizedToolRuntime::new(
        registry.catalog(),
        PermissionPolicy::default().allow_capability("fixture.read"),
    )
    .unwrap();
    let mut executor = registry.reference_executor();
    let request = ToolRequest::new("session-1:call-2", "ref.missing", 1, vec![]);

    let response = runtime.invoke(&request, false, &mut executor);
    assert!(matches!(response, ToolResponse::Error(_)));
    assert_eq!(executor.invocations(), 0);
    assert_eq!(
        runtime.audit().last().unwrap().reason,
        AuthorizationReason::UnknownTool
    );
}

#[test]
fn dynamically_registered_definition_is_not_misrouted_to_reference_logic() {
    let mut registry = ToolRegistry::with_reference_tools().unwrap();
    registry
        .register_definition(
            ToolDefinition::new(
                "custom.echo",
                1,
                "custom.read",
                false,
                100,
                64,
                vec![ToolArgSpec {
                    name: "text".into(),
                    required: true,
                    kind: ToolArgKind::String {
                        min_len: 1,
                        max_len: 32,
                    },
                }],
            )
            .unwrap(),
        )
        .unwrap();

    let mut runtime = AuthorizedToolRuntime::new(
        registry.catalog(),
        PermissionPolicy::default().allow_tool("custom.echo", 1),
    )
    .unwrap();
    let mut executor = registry.reference_executor();
    let response = runtime.invoke(
        &string_request("call:custom", "custom.echo", "text", "do-not-echo"),
        false,
        &mut executor,
    );
    match response {
        ToolResponse::Error(error) => assert_eq!(error.code, "no-reference-executor"),
        other => panic!("expected no-reference-executor, got {other:?}"),
    }
}

#[test]
fn agent_eval_lookup_is_discoverable_and_matches_mock_contract() {
    let registry = ToolRegistry::with_reference_tools().unwrap();
    assert!(registry.resolve("lookup", 1).is_some(), "agent eval tool lookup missing from registry");

    let mut runtime = AuthorizedToolRuntime::new(
        registry.catalog(),
        PermissionPolicy::default().allow_tool("lookup", 1),
    )
    .unwrap();
    let mut executor = registry.reference_executor();

    assert_eq!(
        runtime.invoke(
            &string_request("call:city", "lookup", "key", "city-2"),
            false,
            &mut executor,
        ),
        ToolResponse::result("call:city", "1002")
    );

    match runtime.invoke(
        &string_request("call:missing", "lookup", "key", "missing-2"),
        false,
        &mut executor,
    ) {
        ToolResponse::Error(error) => {
            assert_eq!(error.severity, ToolErrorSeverity::Recoverable);
            assert_eq!(error.code, "not-found");
        }
        other => panic!("expected controlled lookup error, got {other:?}"),
    }
}

#[test]
fn add_error_and_latency_reference_tools_are_deterministic() {
    let registry = ToolRegistry::with_reference_tools().unwrap();
    let mut runtime = AuthorizedToolRuntime::new(
        registry.catalog(),
        PermissionPolicy::default()
            .allow_tool("ref.add", 1)
            .allow_tool("ref.error", 1)
            .allow_tool("ref.latency", 1),
    )
    .unwrap();
    let mut executor = registry.reference_executor();

    let add = ToolRequest::new(
        "call:add",
        "ref.add",
        1,
        vec![
            ToolArgument {
                name: "left".into(),
                value: ToolValue::Integer(2),
            },
            ToolArgument {
                name: "right".into(),
                value: ToolValue::Integer(5),
            },
        ],
    );
    assert_eq!(
        runtime.invoke(&add, false, &mut executor),
        ToolResponse::result("call:add", "7")
    );

    let latency = ToolRequest::new(
        "call:latency",
        "ref.latency",
        1,
        vec![ToolArgument {
            name: "ticks".into(),
            value: ToolValue::Integer(3),
        }],
    );
    assert_eq!(
        runtime.invoke(&latency, false, &mut executor),
        ToolResponse::result("call:latency", "ticks=3")
    );

    match runtime.invoke(
        &string_request("call:error", "ref.error", "code", "busy"),
        false,
        &mut executor,
    ) {
        ToolResponse::Error(error) => {
            assert_eq!(error.severity, ToolErrorSeverity::Recoverable);
            assert_eq!(error.code, "busy");
        }
        other => panic!("expected injected error, got {other:?}"),
    }
}

