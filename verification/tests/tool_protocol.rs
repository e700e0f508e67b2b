use auralis::tool_protocol::{
    check_response, invoke_validated, DeterministicMockExecutor, MockMode, ToolArgKind, ToolArgSpec, ToolArgument, ToolDefinition,
    ToolErrorSeverity, ToolExecutor, ToolProtocolError, ToolRequest, ToolResponse, ToolValue, ValidatedToolCall,
};

struct WrongCall;

impl ToolExecutor for WrongCall {
    fn execute(&mut self, _call: ValidatedToolCall<'_>) -> ToolResponse {
        ToolResponse::result("wrong", "ok")
    }
}

fn def() -> ToolDefinition {
    ToolDefinition::new(
        "fixture.echo",
        2,
        "fixture.read",
        false,
        1500,
        128,
        vec![
            ToolArgSpec {
                name: "text".into(),
                required: true,
                kind: ToolArgKind::String {
                    min_len: 1,
                    max_len: 32,
                },
            },
            ToolArgSpec {
                name: "count".into(),
                required: false,
                kind: ToolArgKind::Integer { min: 1, max: 4 },
            },
            ToolArgSpec {
                name: "mode".into(),
                required: false,
                kind: ToolArgKind::Enum {
                    variants: vec!["plain".into(), "upper".into()],
                },
            },
        ],
    )
    .unwrap()
}

fn req() -> ToolRequest {
    ToolRequest::new(
        "session-1:call-7",
        "fixture.echo",
        2,
        vec![
            ToolArgument {
                name: "text".into(),
                value: ToolValue::String("hello=world\n✓".into()),
            },
            ToolArgument {
                name: "count".into(),
                value: ToolValue::Integer(2),
            },
            ToolArgument {
                name: "mode".into(),
                value: ToolValue::String("plain".into()),
            },
        ],
    )
}

#[test]
fn definitions_requests_results_and_errors_roundtrip() {
    let d = def();
    assert_eq!(ToolDefinition::decode(&d.encode()).unwrap(), d);
    let r = req();
    let decoded = ToolRequest::decode(&r.encode()).unwrap();
    decoded.validate_against(&d).unwrap();
    assert_eq!(decoded, r);

    let result = ToolResponse::result("call-1", "line 1\nline=2");
    assert_eq!(ToolResponse::decode(&result.encode()).unwrap(), result);
    let error = ToolResponse::error(
        "call-2",
        ToolErrorSeverity::Recoverable,
        "fixture-timeout",
        "try again",
    );
    assert_eq!(ToolResponse::decode(&error.encode()).unwrap(), error);
}

#[test]
fn invalid_calls_fail_before_executor() {
    let d = def();
    let mut runtime =
        DeterministicMockExecutor::new(MockMode::FixedResult("ok".into()));
    let mut missing = req();
    missing.arguments.retain(|a| a.name != "text");
    let response = invoke_validated(&d, &missing, &mut runtime);
    assert_eq!(runtime.invocations, 0);
    assert!(matches!(response, ToolResponse::Error(_)));

    let mut unknown = req();
    unknown.arguments.push(ToolArgument {
        name: "surprise".into(),
        value: ToolValue::Boolean(true),
    });
    let _ = invoke_validated(&d, &unknown, &mut runtime);
    assert_eq!(runtime.invocations, 0);
}

#[test]
fn types_ranges_enums_duplicates_and_unknown_fields_fail_closed() {
    let d = def();

    let mut wrong = req();
    wrong.arguments[0].value = ToolValue::Integer(1);
    assert!(wrong.validate_against(&d).is_err());

    let mut range = req();
    range.arguments[1].value = ToolValue::Integer(99);
    assert!(range.validate_against(&d).is_err());

    let mut en = req();
    en.arguments[2].value = ToolValue::String("other".into());
    assert!(en.validate_against(&d).is_err());

    let mut dup = req();
    dup.arguments.push(dup.arguments[0].clone());
    assert!(dup.validate_against(&d).is_err());

    let encoded = d.encode();
    assert!(ToolDefinition::decode(&(encoded.clone() + "secret=never\n")).is_err());
    assert!(ToolDefinition::decode(&(encoded + "name=again\n")).is_err());
}

#[test]
fn future_schema_and_malformed_escape_fail_closed() {
    let future = def()
        .encode()
        .replacen("auralis_tool_definition=1", "auralis_tool_definition=999", 1);
    assert!(ToolDefinition::decode(&future).is_err());

    let malformed = req().encode().replace("hello%3Dworld", "hello%QZworld");
    assert!(ToolRequest::decode(&malformed).is_err());
}

#[test]
fn deterministic_mock_is_replaceable_and_correlated() {
    let d = def();
    let r = req();
    let mut a =
        DeterministicMockExecutor::new(MockMode::EchoArgument("text".into()));
    let mut b =
        DeterministicMockExecutor::new(MockMode::EchoArgument("text".into()));
    let ra = invoke_validated(&d, &r, &mut a);
    let rb = invoke_validated(&d, &r, &mut b);
    assert_eq!(ra, rb);
    assert_eq!(a.invocations, 1);
    assert_eq!(b.invocations, 1);
    assert_eq!(ra.call_id(), r.call_id);
}

#[test]
fn invalid_executor_response_is_converted_to_fatal_protocol_error() {
    let response = invoke_validated(&def(), &req(), &mut WrongCall);
    match response {
        ToolResponse::Error(e) => {
            assert_eq!(e.code, "invalid-tool-response");
            assert_eq!(e.severity, ToolErrorSeverity::Fatal);
        }
        other => panic!("expected error, got {other:?}"),
    }
}

#[test]
fn result_size_limit_is_enforced() {
    let mut d = def();
    d.max_result_bytes = 4;
    let mut runtime =
        DeterministicMockExecutor::new(MockMode::FixedResult("too-long".into()));
    let response = invoke_validated(&d, &req(), &mut runtime);
    assert_eq!(runtime.invocations, 1);
    match response {
        ToolResponse::Error(e) => assert_eq!(e.code, "invalid-tool-response"),
        other => panic!("expected size error, got {other:?}"),
    }
}


#[test]
fn protocol_errors_have_their_display_text() {
    assert_eq!(ToolProtocolError::Decode("x".into()).message(), "tool protocol decode error: x");
    assert_eq!(ToolErrorSeverity::parse("fatal").unwrap(), ToolErrorSeverity::Fatal);
    assert!(ToolErrorSeverity::parse("loud").is_err());
    let r = req();
    assert_eq!(r.encode(), r.encode());
    assert!(ToolRequest::decode("garbage").is_err());
}

#[test]
fn response_with_unknown_or_missing_fields_is_refused() {
    let good = ToolResponse::result("call-9", "done").encode();
    assert!(ToolResponse::decode(&good).is_ok());
    assert!(matches!(
        ToolResponse::decode(&(good.clone() + "extra=1\n")),
        Err(ToolProtocolError::Decode(_))
    ));
    let missing = good.replace("content=done\n", "");
    assert!(matches!(ToolResponse::decode(&missing), Err(ToolProtocolError::Decode(_))));
    assert!(matches!(ToolResponse::decode("call_id=x\n"), Err(ToolProtocolError::Decode(_))));
    let bad_severity = ToolResponse::error("c", ToolErrorSeverity::Fatal, "code-1", "m")
        .encode()
        .replace("severity=fatal", "severity=grave");
    assert!(matches!(ToolResponse::decode(&bad_severity), Err(ToolProtocolError::Decode(_))));
}

#[test]
fn request_argument_fields_are_read_back_exactly() {
    let r = req();
    let text = r.encode();
    assert!(text.contains("arg.0.name=text\n"));
    let decoded = ToolRequest::decode(&text).unwrap();
    assert_eq!(decoded.arguments.len(), r.arguments.len());
    assert_eq!(decoded, r);
    let bad_type = text.replace("arg.1.type=integer", "arg.1.type=float");
    assert!(matches!(ToolRequest::decode(&bad_type), Err(ToolProtocolError::Decode(_))));
    let short = text.replace("arg_count=3", "arg_count=2");
    assert!(matches!(ToolRequest::decode(&short), Err(ToolProtocolError::Decode(_))));
}

#[test]
fn definition_decode_separates_decode_and_validation_errors() {
    let d = def();
    let text = d.encode();
    assert_eq!(ToolDefinition::decode(&text).unwrap(), d);
    let zero_version = text.replace("\nversion=2\n", "\nversion=0\n");
    assert!(matches!(ToolDefinition::decode(&zero_version), Err(ToolProtocolError::Definition(_))));
    let bad_kind = text.replace("arg.0.kind=string", "arg.0.kind=float");
    assert!(matches!(ToolDefinition::decode(&bad_kind), Err(ToolProtocolError::Decode(_))));
}

#[test]
fn check_response_passes_valid_responses_and_replaces_invalid_ones() {
    let d = def();
    let ok = ToolResponse::result("c-1", "hello");
    assert_eq!(check_response(&d, "c-1", ok.clone()), ok);
    let recoverable = ToolResponse::error("c-1", ToolErrorSeverity::Recoverable, "busy", "try later");
    assert_eq!(check_response(&d, "c-1", recoverable.clone()), recoverable);
    match check_response(&d, "c-1", ToolResponse::result("c-2", "hello")) {
        ToolResponse::Error(e) => {
            assert_eq!(e.code, "invalid-tool-response");
            assert_eq!(e.call_id, "c-1");
            assert_eq!(e.severity, ToolErrorSeverity::Fatal);
        },
        ToolResponse::Result(_) => panic!("mismatched call id accepted"),
    }
    let too_long: String = std::iter::repeat('x').take(200).collect();
    match check_response(&d, "c-1", ToolResponse::result("c-1", too_long.as_str())) {
        ToolResponse::Error(e) => assert_eq!(e.code, "invalid-tool-response"),
        ToolResponse::Result(_) => panic!("oversized result accepted"),
    }
}
