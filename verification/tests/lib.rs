#[test]
fn test_library_version() {
    assert!(reliable_rs::VERSION.starts_with("0.2"));
}
