use auralis::sec::{scan_source, scan_sources, SecReport, UnsafeHit};

#[test]
fn real_unsafe_block_is_a_hit() {
    let src = "fn f() { unsafe { *p } }\n";
    let hits = scan_source(src, "t.rs");
    assert_eq!(hits.len(), 1);
    assert_eq!(hits[0].line, 1);
}

#[test]
fn comments_and_identifiers_are_not_hits() {
    let src = "// unsafe comment\nfn unsafe_name() {}\nlet x = 1;\n";
    assert!(scan_source(src, "t.rs").is_empty());
}

#[test]
fn sec_hits_keep_path_line_and_trimmed_text() {
    let src = "fn a() {}\n   unsafe impl Send for X {}\r\n* unsafe in a doc block\n";
    let hits = scan_source(src, "lib/x.rs");
    assert_eq!(hits, vec![UnsafeHit { path: "lib/x.rs".to_string(), line: 2, text: "unsafe impl Send for X {}".to_string() }]);
}

#[test]
fn sec_report_text_and_contract() {
    let files = vec![
        ("a.rs".to_string(), "fn ok() {}\n".to_string()),
        ("b.rs".to_string(), "unsafe fn f() {}\n".to_string()),
    ];
    let report = scan_sources(&files);
    assert_eq!(report.files_scanned, 2);
    assert_eq!(report.hits.len(), 1);
    assert!(!report.ok());
    assert_eq!(
        report.human(),
        "sec-audit | files=2 unsafe_hits=1 expected=0\nunsafe | b.rs:1 unsafe fn f() {}\nlimits | MAX_CHECKPOINT_STRING=1048576 MAX_BPE_TABLE=65536\n"
    );
    let clean = SecReport { files_scanned: 1, hits: Vec::new() };
    assert!(clean.ok());
}
