use ascfix::lists::{detect_lists, normalize_list_indentation};

#[test]
fn detect_simple_bullet_list() {
    let content = "- Item 1\n- Item 2\n- Item 3";
    let lists = detect_lists(content);
    assert_eq!(lists.len(), 1);
    assert_eq!(lists[0].items.len(), 3);
    assert_eq!(lists[0].items[0].content, "Item 1");
    assert_eq!(lists[0].items[1].content, "Item 2");
    assert_eq!(lists[0].items[2].content, "Item 3");
}

#[test]
fn detect_list_with_mixed_bullets() {
    let content = "- Item 1\n* Item 2\n+ Item 3";
    let lists = detect_lists(content);
    assert_eq!(lists.len(), 1);
    assert_eq!(lists[0].items.len(), 3);
}

#[test]
fn detect_ordered_list() {
    let content = "1. First item\n2. Second item\n3. Third item";
    let lists = detect_lists(content);
    assert_eq!(lists.len(), 1);
    assert_eq!(lists[0].items.len(), 3);
    assert!(lists[0].is_ordered);
}

#[test]
fn detect_task_list() {
    let content = "- [ ] Todo item\n- [x] Done item\n- [X] Also done";
    let lists = detect_lists(content);
    assert_eq!(lists.len(), 1);
    assert_eq!(lists[0].items.len(), 3);
    assert!(lists[0].items[0].is_task);
    assert!(!lists[0].items[0].checked.unwrap());
    assert!(lists[0].items[1].is_task);
    assert!(lists[0].items[1].checked.unwrap());
}

#[test]
fn ignore_lists_in_code_blocks() {
    let content =
        "```markdown\n- Item in code block\n- Another item\n```\n\n- Real item outside";
    let lists = detect_lists(content);
    assert_eq!(lists.len(), 1);
    assert_eq!(lists[0].items.len(), 1);
    assert_eq!(lists[0].items[0].content, "Real item outside");
}

#[test]
fn detect_multiple_lists() {
    let content = "- First list item 1\n- First list item 2\n\nSome text\n\n* Second list item 1\n* Second list item 2";
    let lists = detect_lists(content);
    assert_eq!(lists.len(), 2);
    assert_eq!(lists[0].items.len(), 2);
    assert_eq!(lists[1].items.len(), 2);
}

#[test]
fn no_lists_in_plain_text() {
    let content = "This is just a paragraph.\nNo lists here.\nJust text.";
    let lists = detect_lists(content);
    assert_eq!(lists.len(), 0);
}

#[test]
fn normalize_indentation_to_two_spaces() {
    // 4-space indentation should become 2-space
    let content = "- Item 1\n    - Nested item\n- Item 2";
    let normalized = normalize_list_indentation(content);
    assert!(normalized.contains("- Item 1"));
    assert!(normalized.contains("  - Nested item")); // 2 spaces
    assert!(!normalized.contains("    - Nested")); // No 4 spaces
}

#[test]
fn normalize_deeply_nested_list() {
    // Mixed indentation should be normalized
    let content = "- Level 1\n    - Level 2\n        - Level 3\n- Back to 1";
    let normalized = normalize_list_indentation(content);
    assert!(normalized.contains("- Level 1"));
    assert!(normalized.contains("  - Level 2")); // 2 spaces
    assert!(normalized.contains("    - Level 3")); // 4 spaces (2 per level)
}

#[test]
fn preserve_content_when_normalizing() {
    // Content should remain unchanged, only indentation fixed
    let content = "- First item with text\n    - Second item with more text";
    let normalized = normalize_list_indentation(content);
    assert!(normalized.contains("First item with text"));
    assert!(normalized.contains("Second item with more text"));
}

#[test]
fn no_change_to_already_normalized() {
    // Already 2-space indented lists should remain unchanged
    let content = "- Item 1\n  - Nested\n  - Another nested\n- Item 2";
    let normalized = normalize_list_indentation(content);
    assert_eq!(normalized, content);
}

#[test]
fn normalize_mixed_indentation_styles() {
    // Mixed 2-space and 4-space should become all 2-space relative
    let content = "- Item 1\n  - Two space\n    - Four space (should be 4)\n- Item 2";
    let normalized = normalize_list_indentation(content);
    assert!(normalized.contains("- Item 1"));
    assert!(normalized.contains("  - Two space"));
    assert!(normalized.contains("    - Four space")); // 4 spaces is correct for 2nd level
}
