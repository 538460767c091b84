use ascfix::modes::check::process_check_mode;

#[test]
fn check_test_check_mode_preserves_content() {
    let content = "# Test\n\nSome content";
    let result = process_check_mode(content);
    // Check mode should use same processing as diagram
    assert_eq!(result, content);
}

#[test]
fn test_check_mode_returns_unchanged_content() {
    let content = "# Test\n\nNo diagrams here";
    let result = process_check_mode(content);
    // Check mode processes same as diagram mode but returns content
    assert_eq!(result, content);
}
