use ascfix::modes::safe::process_safe_mode;

#[test]
fn safe_test_safe_mode_preserves_content() {
    let content = "# Test\n\nSome content";
    let result = process_safe_mode(content);
    // Safe mode should preserve content for now
    assert_eq!(result, content);
}

#[test]
fn safe_test_safe_mode_normalizes_table() {
    let content = "| Name | Age |\n|------|-----|\n| Alice | 30 |\n| Bob | 25 |";
    let result = process_safe_mode(content);
    // Result should be normalized (may have different spacing)
    assert!(result.contains("| Name"));
    assert!(result.contains("| Age"));
    assert!(result.contains("| Alice"));
    assert!(result.contains("| Bob"));
}

#[test]
fn safe_test_safe_mode_preserves_non_tables() {
    let content = "# Title\n\nSome paragraph.\n\nMore text.";
    let result = process_safe_mode(content);
    assert_eq!(result, content);
}

#[test]
fn safe_test_safe_mode_misaligned_table() {
    let content = "| A | B |\n|---|---|\n| x| y |";
    let result = process_safe_mode(content);
    // Should normalize spacing
    assert!(result.contains("| A"));
    assert!(result.contains("| B"));
}

#[test]
fn safe_test_safe_mode_multiple_tables() {
    let content =
        "| H1 | H2 |\n|---|---|\n| a | b |\n\nText\n\n| C | D |\n|---|---|\n| c | d |";
    let result = process_safe_mode(content);
    // Both tables should be present
    assert!(result.contains("| H1"));
    assert!(result.contains("| C"));
}

#[test]
fn test_link_in_table_cell_preserved() {
    // Test that links with parentheses in URLs are preserved in table cells
    let content = "| [API](https://example.com/api(v2)) | Description |\n|-----------------------------------|-------------|\n| Link | Value |";
    let result = process_safe_mode(content);
    // The URL with parentheses should be preserved
    assert!(
        result.contains("https://example.com/api(v2)"),
        "Link URL with parentheses should be preserved in table cell. Result:\n{result}"
    );
}

#[test]
fn test_link_with_pipe_in_table_cell() {
    // Test that links containing | character don't break table parsing
    // This is a more challenging case that requires link-aware parsing
    let content = "| [Docs](https://example.com/doc|section) | Description |\n|------------------------------------------|-------------|\n| Link | Value |";
    let result = process_safe_mode(content);
    // The link should be preserved with its full URL
    assert!(
        result.contains("https://example.com/doc|section"),
        "Link URL with pipe should be preserved. Result:\n{result}"
    );
}

#[test]
fn test_safe_mode_unwraps_wrapped_table_cells() {
    // Test that wrapped table cells are unwrapped in safe mode
    let content = "| Name | Description |\n|------|-------------|\n| Item | This is a very |\n|      | long description |";
    let result = process_safe_mode(content);
    // The wrapped cell should be joined into one row
    assert!(
        result.contains("This is a very long description"),
        "Wrapped cell should be unwrapped. Result:\n{result}"
    );
    // Should not have the continuation row pattern
    assert!(
        !result.contains("|      | long description |"),
        "Continuation row should be removed. Result:\n{result}"
    );
}

#[test]
fn test_safe_mode_preserves_multiline_code_in_tables() {
    // Test that intentional multi-line content (code blocks) is preserved
    let content = "| Code | Example |\n|------|---------|\n| ```python | of code |\n| def hello(): | inside |\n| ``` | cell |";
    let result = process_safe_mode(content);
    // Code blocks should be preserved (not unwrapped)
    assert!(
        result.contains("```python"),
        "Code fence should be preserved. Result:\n{result}"
    );
    assert!(
        result.contains("def hello():"),
        "Code content should be preserved. Result:\n{result}"
    );
}

#[test]
fn test_safe_mode_normalizes_list_indentation() {
    // Test that inconsistent list indentation is normalized
    let content = "- Item 1\n    - Nested with 4 spaces\n- Item 2";
    let result = process_safe_mode(content);
    // Nested item should be 2 spaces, not 4
    assert!(
        result.contains("  - Nested with 4 spaces"),
        "List indentation should be normalized to 2 spaces. Result:\n{result}"
    );
    assert!(
        !result.contains("    - Nested"),
        "4-space indentation should be removed. Result:\n{result}"
    );
}

#[test]
fn test_safe_mode_normalizes_bullet_styles() {
    // Test that mixed bullet styles are normalized
    let content = "- Item 1\n* Item 2\n+ Item 3";
    let result = process_safe_mode(content);
    // All bullets should be normalized to dash
    assert!(
        result.contains("- Item 1"),
        "Dash bullet should remain. Result:\n{result}"
    );
    assert!(
        result.contains("- Item 2"),
        "Asterisk should become dash. Result:\n{result}"
    );
    assert!(
        result.contains("- Item 3"),
        "Plus should become dash. Result:\n{result}"
    );
}

#[test]
fn test_safe_mode_preserves_task_lists() {
    // Test that task list checkboxes are preserved
    let content = "- [ ] Todo item\n- [x] Done item\n- [X] Also done";
    let result = process_safe_mode(content);
    assert!(
        result.contains("- [ ] Todo item"),
        "Unchecked task should be preserved. Result:\n{result}"
    );
    assert!(
        result.contains("- [x] Done item"),
        "Checked task should be preserved. Result:\n{result}"
    );
}

#[test]
fn test_safe_mode_preserves_lists_in_code_blocks() {
    // Test that lists inside code blocks are not normalized
    let content =
        "```markdown\n- Item in code block\n* Another item\n```\n\n- Real item outside";
    let result = process_safe_mode(content);
    // List in code block should preserve mixed bullets
    assert!(
        result.contains("- Item in code block"),
        "List in code block should be preserved. Result:\n{result}"
    );
    assert!(
        result.contains("* Another item"),
        "Asterisk in code block should be preserved. Result:\n{result}"
    );
    // Outside list should be normalized
    assert!(
        result.contains("- Real item outside"),
        "Outside list should be normalized. Result:\n{result}"
    );
}
