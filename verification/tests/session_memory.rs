use auralis::session_memory::{MemoryError, MemoryKind, SessionMemory};

#[test]
fn remember_retrieve_reset_and_replay() {
    let mut memory = SessionMemory::new("s-98", 8);
    memory.remember(MemoryKind::Note, "goal", "find city");
    memory.remember(MemoryKind::ToolResult, "lookup", "paris");
    memory.remember(MemoryKind::Event, "user", "thanks");
    let by_tag = memory.retrieve(None, Some("lookup"), 4);
    assert_eq!(by_tag.len(), 1);
    assert_eq!(by_tag[0].text, "paris");
    let recent = memory.retrieve(None, None, 2);
    assert_eq!(recent[0].tag, "lookup");
    assert_eq!(recent[1].tag, "user");
    let blob = memory.canonical();
    let mut loaded = SessionMemory::load(&blob).unwrap();
    assert_eq!(loaded.retrieve(None, None, 8), memory.retrieve(None, None, 8));
    memory.reset();
    assert_eq!(memory.len(), 0);
    assert_eq!(memory.retrieve(None, None, 8).len(), 0);
}

#[test]
fn evict_oldest_is_explicit() {
    let mut memory = SessionMemory::new("s-98", 2);
    memory.remember(MemoryKind::Note, "a", "one");
    memory.remember(MemoryKind::Note, "b", "two");
    memory.remember(MemoryKind::Note, "c", "three");
    assert_eq!(memory.len(), 2);
    assert_eq!(memory.evicted(), 1);
    let texts: Vec<_> = memory.retrieve(None, None, 8).into_iter().map(|r| r.text).collect();
    assert_eq!(texts, vec!["two", "three"]);
}

#[test]
fn sessions_do_not_share_and_off_is_complete() {
    let mut a = SessionMemory::new("a", 4);
    let mut b = SessionMemory::new("b", 4);
    a.remember(MemoryKind::Note, "secret", "alpha");
    b.remember(MemoryKind::Note, "secret", "beta");
    assert_eq!(a.retrieve(None, Some("secret"), 1)[0].text, "alpha");
    assert_eq!(b.retrieve(None, Some("secret"), 1)[0].text, "beta");
    assert!(!a.canonical().contains("beta"));
    let mut off = SessionMemory::off("c");
    assert!(!off.enabled());
    assert!(off.remember(MemoryKind::Note, "x", "ignored").is_none());
    assert!(off.retrieve(None, None, 4).is_empty());
    assert_eq!(off.misses(), 1);
}

#[test]
fn secrets_redacted_and_schema_rejected() {
    let mut memory = SessionMemory::new("s-98", 4);
    memory.remember(MemoryKind::Note, "auth", "password=hunter2");
    assert!(!memory.canonical().contains("hunter2"));
    let err = SessionMemory::load("auralis_session_memory=9\nsession=x\nenabled=1\ncapacity=4\n")
        .unwrap_err();
    assert_eq!(err, MemoryError::IncompatibleSchema(9));
}


#[test]
fn canonical_memory_loads_back_its_records() {
    let mut memory = SessionMemory::new("s-1", 3);
    memory.remember(MemoryKind::Note, "multi\nline", "back\\slash");
    memory.remember(MemoryKind::ToolResult, "t", "");
    let loaded = SessionMemory::load(&memory.canonical()).unwrap();
    assert_eq!(loaded.canonical(), memory.canonical());
    assert_eq!(loaded.len(), 2);
    let mut m = memory.clone();
    let mut l = loaded.clone();
    assert_eq!(l.retrieve(None, None, 8), m.retrieve(None, None, 8));
}

#[test]
fn bar_in_text_does_not_survive_the_line_split() {
    let mut memory = SessionMemory::new("s-2", 4);
    memory.remember(MemoryKind::Note, "tag", "a|b");
    let mut loaded = SessionMemory::load(&memory.canonical()).unwrap();
    let records = loaded.retrieve(None, None, 4);
    assert_eq!(records.len(), 1);
    assert_ne!(records[0].text, "a|b");
}

#[test]
fn malformed_memory_texts_are_refused() {
    let head = "auralis_session_memory=1\nsession=x\nenabled=1\ncapacity=4\n";
    assert_eq!(SessionMemory::load("auralis_session_memory=1\n").unwrap_err(), MemoryError::Malformed("missing session"));
    assert_eq!(
        SessionMemory::load("auralis_session_memory=1\nsession=x\nenabled=1\n").unwrap_err(),
        MemoryError::Malformed("missing capacity")
    );
    assert_eq!(SessionMemory::load(&format!("{head}x|note\n")).unwrap_err(), MemoryError::Malformed("bad seq"));
    assert_eq!(SessionMemory::load(&format!("{head}3|nope|t\n")).unwrap_err(), MemoryError::Malformed("bad kind"));
    assert_eq!(SessionMemory::load(&format!("{head}3\n")).unwrap_err(), MemoryError::Malformed("bad kind"));
    let mut short = SessionMemory::load(&format!("{head}7|note\n")).unwrap();
    let r = short.retrieve(None, None, 4);
    assert_eq!(r[0].seq, 7);
    assert_eq!(r[0].tag, "");
}
