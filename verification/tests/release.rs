use auralis::release::{check_release, GateStatus, ReleaseManifest};

fn all_required() -> Vec<String> {
    [
        "Cargo.toml",
        "README.md",
        "VISION.md",
        "ROADMAP.md",
        ".github/workflows/genesis.yml",
        ".github/workflows/pruebas.yml",
        "docs/ci-pruebas.md",
    ]
    .iter()
    .map(|s| s.to_string())
    .collect()
}

#[test]
fn complete_tree_is_automated_pass_without_human_approval() {
    let report = check_release("/tmp/release-root", &all_required());
    assert!(report.automated_pass);
    assert_eq!(report.human_approval, GateStatus::Pending);
    assert!(report.human().contains("never creates tags"));
    assert!(report.json().contains("\"creates_tags\":false"));
    assert_eq!(report.gates.len(), 12);
}

#[test]
fn missing_ci_workflow_fails_automated_pass() {
    let present = vec!["Cargo.toml".to_string(), "README.md".to_string()];
    let report = check_release("/tmp/release-root", &present);
    assert!(!report.automated_pass);
    assert!(report.gates.iter().any(|g| g.id == "ci_genesis" && g.status == GateStatus::Fail));
}

#[test]
fn release_manifest_roundtrip_and_mismatch() {
    let paths = vec!["README.md".to_string(), "Cargo.toml".to_string()];
    let reads = vec![Ok(b"ok\n".to_vec()), Ok(b"ok\n".to_vec())];
    let manifest = ReleaseManifest::capture(&paths, &reads, "rev-1", "1.80").unwrap();
    assert_eq!(manifest.artifacts[0].path, "Cargo.toml");
    assert_eq!(manifest.artifacts[1].path, "README.md");
    assert_eq!(manifest.artifacts[0].bytes, 3);
    let text = manifest.encode();
    assert!(text.starts_with("auralis_release=1\ncode_revision=rev-1\nrustc=1.80\nartifact_count=2\nartifact=Cargo.toml bytes=3 checksum="));
    manifest.verify(&manifest.clone()).unwrap();
    let changed = ReleaseManifest::capture(&paths, &vec![Ok(b"changed\n".to_vec()), Ok(b"ok\n".to_vec())], "rev-1", "1.80").unwrap();
    assert!(manifest.verify(&changed).unwrap_err().contains("mismatch"));
}

#[test]
fn release_manifest_rejects_path_escape() {
    let paths = vec!["../secret".to_string()];
    let reads = vec![Err("not read".to_string())];
    let err = ReleaseManifest::capture(&paths, &reads, "rev", "rustc").unwrap_err();
    assert_eq!(err, "refusing unsafe artifact path ../secret");
    let abs = ReleaseManifest::capture(&vec!["/etc/passwd".to_string()], &vec![Ok(Vec::new())], "rev", "rustc");
    assert!(abs.is_err());
}

#[test]
fn release_json_escapes_root_and_details() {
    let report = check_release("C:\\tree \"x\"", &Vec::new());
    let json = report.json();
    assert!(json.starts_with("{\"root\":\"C:\\\\tree \\\"x\\\"\",\"automated_pass\":false,\"human_approval\":\"pending\""));
    assert!(report.human().starts_with("release-check | root=C:\\tree \"x\" automated_pass=false human_approval=pending\n"));
}

#[test]
fn release_manifest_decode_reads_back_what_encode_wrote() {
    let paths = vec!["README.md".to_string(), "Cargo.toml".to_string()];
    let reads = vec![Ok(b"ok\n".to_vec()), Ok(b"ok\n".to_vec())];
    let manifest = ReleaseManifest::capture(&paths, &reads, "rev-1", "1.80").unwrap();
    let decoded = ReleaseManifest::decode(&manifest.encode()).unwrap();
    assert_eq!(decoded, manifest);
}

#[test]
fn release_manifest_decode_errors() {
    assert_eq!(ReleaseManifest::decode("").unwrap_err(), "release manifest missing auralis_release");
    assert_eq!(ReleaseManifest::decode("auralis_release=1\nauralis_release=1\n").unwrap_err(), "duplicate auralis_release");
    assert_eq!(ReleaseManifest::decode("# c\n\nnonsense\n").unwrap_err(), "invalid release manifest line 3");
    assert_eq!(ReleaseManifest::decode("color=blue\n").unwrap_err(), "unknown release manifest field color");
    assert_eq!(
        ReleaseManifest::decode("auralis_release=2\n").unwrap_err(),
        "release manifest version 2 is unsupported (expected 1); explicit migration required"
    );
    assert_eq!(
        ReleaseManifest::decode("auralis_release=1\nartifact_count=1\n").unwrap_err(),
        "artifact_count mismatch: declared=1 listed=0"
    );
    assert_eq!(ReleaseManifest::decode("artifact=a bytes=x checksum=0\n").unwrap_err(), "invalid artifact bytes");
    assert_eq!(ReleaseManifest::decode("artifact=a bytes=1 checksum=zz\n").unwrap_err(), "invalid artifact checksum");
    assert_eq!(ReleaseManifest::decode("artifact=a bytes=1\n").unwrap_err(), "artifact missing checksum");
    let m = ReleaseManifest::decode(
        "auralis_release=1\ncode_revision=r\nrustc=c\nartifact_count=2\nartifact=b bytes=1 checksum=FF extra\nartifact=a  bytes=+2\tchecksum=+0a\n",
    )
    .unwrap();
    assert_eq!(m.artifacts[0].path, "a");
    assert_eq!(m.artifacts[0].bytes, 2);
    assert_eq!(m.artifacts[0].checksum, 10);
    assert_eq!(m.artifacts[1].checksum, 255);
}
