use auralis::session::{EventKind, ReplOutcome, Session, SessionError, SessionRepl};

#[test]
fn create_reset_save_load_roundtrip() {
    let mut session = Session::new("sess-48", "ckpt-name-only");
    session.push_user("hola").unwrap();
    session.push_assistant("ack:1").unwrap();
    let blob = session.export();
    let loaded = Session::load(&blob).unwrap();
    assert_eq!(loaded, session);
    session.reset();
    assert!(session.events.is_empty());
    assert_eq!(session.generation, 1);
    assert_eq!(session.model_checkpoint, "ckpt-name-only");
    assert_eq!(session.session_id, "sess-48");
    let after_reset = Session::load(&session.export()).unwrap();
    assert_eq!(after_reset.events.len(), 0);
    assert_eq!(after_reset.generation, 1);
}

#[test]
fn incompatible_schema_is_rejected() {
    let blob = "auralis_session=2\nsession_id=x\ngeneration=0\nstatus=active\ntools=0\nplanner=0\ncheckpoint=none\n";
    match Session::load(blob) {
        Err(SessionError::IncompatibleSchema(2)) => {}
        other => panic!("expected schema reject, got {other:?}"),
    }
}

#[test]
fn secrets_are_not_serialized() {
    let mut session = Session::new("sess-secret", "none");
    session
        .push_user("token=abc123 password=hunter2 SECRET")
        .unwrap();
    let blob = session.export();
    assert!(!blob.contains("abc123"));
    assert!(!blob.contains("hunter2"));
    assert!(!blob.contains("SECRET"));
    assert!(blob.contains("[REDACTED]"));
}

#[test]
fn partial_error_does_not_drop_history() {
    let mut session = Session::new("sess-err", "none");
    session.push_user("keep-me").unwrap();
    session.record_error("boom").unwrap();
    assert_eq!(session.events.len(), 2);
    assert_eq!(session.events[0].payload, "keep-me");
    assert_eq!(session.events[1].kind, EventKind::Error);
}

#[test]
fn repl_works_with_tools_and_planner_disabled() {
    let mut repl = SessionRepl::new("sess-repl", "none");
    assert!(!repl.session.tools_enabled);
    assert!(!repl.session.planner_enabled);
    let tool = repl.handle("/tool lookup city-1").unwrap();
    assert_eq!(tool, ReplOutcome::Reply("tools-disabled".into()));
    let plan = repl.handle("/plan lookup").unwrap();
    assert_eq!(plan, ReplOutcome::Reply("planner-disabled".into()));
    let talk = repl.handle("hola").unwrap();
    assert!(matches!(talk, ReplOutcome::Reply(_)));
    assert_eq!(repl.session.events.len(), 4);
    let exported = match repl.handle("/export").unwrap() {
        ReplOutcome::Exported(blob) => blob,
        other => panic!("{other:?}"),
    };
    let mut other = SessionRepl::new("tmp", "other-ckpt");
    other.handle(&format!("/load {exported}")).unwrap();
    assert_eq!(other.session.session_id, "sess-repl");
    assert_eq!(other.session.events.len(), 4);
    assert_eq!(other.session.model_checkpoint, "none");
}

#[test]
fn fixture_order_is_stable() {
    let fixture = "auralis_session=1\nsession_id=fixture-48\ngeneration=0\nstatus=active\ntools=0\nplanner=0\ncheckpoint=none\nevent=0|user|one\nevent=1|assistant|ack:1\n";
    let loaded = Session::load(fixture).unwrap();
    assert_eq!(loaded.export(), fixture);
    assert_eq!(loaded.events[0].payload, "one");
    assert_eq!(loaded.events[1].seq, 1);
}


#[test]
fn escaped_payloads_and_flags_survive_export_and_load() {
    let mut session = Session::new("id|with\\bars", "ckpt\nline");
    session.set_tools_enabled(true);
    session.push_user("a|b\nc\rd\\e").unwrap();
    let loaded = Session::load(&session.export()).unwrap();
    assert_eq!(loaded, session);
    assert_eq!(loaded.events[0].payload, "a|b\nc\rd\\e");
    assert!(loaded.tools_enabled);
    assert!(!loaded.planner_enabled);
}

#[test]
fn load_reports_each_refusal() {
    let head = "auralis_session=1\nsession_id=x\ngeneration=0\nstatus=active\n";
    assert_eq!(
        Session::load(&format!("{head}bogus=1\n")),
        Err(SessionError::Invalid("line bogus=1".into()))
    );
    assert_eq!(
        Session::load("session_id=x\ngeneration=0\nstatus=active\n"),
        Err(SessionError::Invalid("schema".into()))
    );
    assert_eq!(
        Session::load(&format!("{head}event=1|shout|x\n")),
        Err(SessionError::Invalid("kind shout".into()))
    );
    assert_eq!(
        Session::load(&format!("{head}event=1\n")),
        Err(SessionError::Invalid("event".into()))
    );
    let loaded = Session::load(&format!("  {head}\n\n")).unwrap();
    assert_eq!(loaded.model_checkpoint, "none");
    assert!(!loaded.tools_enabled);
}
