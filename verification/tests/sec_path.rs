use auralis::sec_path::{confine, MAX_PATH_COMPONENTS};

#[test]
fn accepts_relative_child() {
    let p = confine("/data", "ckpt/auralis.bin").unwrap();
    assert_eq!(p, "/data/ckpt/auralis.bin");
}

#[test]
fn rejects_parent_escape() {
    assert!(confine("/data", "../etc/passwd").is_err());
    assert!(confine("/data", "ok/../../etc").is_err());
}

#[test]
fn rejects_absolute() {
    assert!(confine("/data", "/etc/passwd").is_err());
}

#[test]
fn rejects_too_many_components() {
    let deep = (0..=MAX_PATH_COMPONENTS).map(|_| "a").collect::<Vec<_>>().join("/");
    assert!(confine("/data", &deep).is_err());
}

#[test]
fn accepts_exactly_the_component_limit() {
    let deep = (0..MAX_PATH_COMPONENTS).map(|_| "a").collect::<Vec<_>>().join("/");
    assert!(confine("/data", &deep).is_ok());
}
