use ascfix::fences::{detect_fence_markers, normalize_fences, pair_fences, validate_fences, FenceIssue, FenceType};

#[test]
fn test_detect_backtick_fence() {
    let content = "```python\ncode\n```";
    let markers = detect_fence_markers(content);
    assert_eq!(markers.len(), 2);
    assert_eq!(markers[0].fence_type, FenceType::Backtick);
    assert_eq!(markers[0].length, 3);
    assert_eq!(markers[0].language, Some("python".to_string()));
    assert_eq!(markers[1].fence_type, FenceType::Backtick);
    assert_eq!(markers[1].length, 3);
    assert_eq!(markers[1].language, None);
}

#[test]
fn test_detect_tilde_fence() {
    let content = "~~~ruby\ncode\n~~~";
    let markers = detect_fence_markers(content);
    assert_eq!(markers.len(), 2);
    assert_eq!(markers[0].fence_type, FenceType::Tilde);
    assert_eq!(markers[0].length, 3);
    assert_eq!(markers[0].language, Some("ruby".to_string()));
}

#[test]
fn test_detect_long_fence() {
    let content = "`````\ncode\n`````";
    let markers = detect_fence_markers(content);
    assert_eq!(markers.len(), 2);
    assert_eq!(markers[0].length, 5);
    assert_eq!(markers[1].length, 5);
}

#[test]
fn test_detect_fence_with_whitespace() {
    let content = "  ```python\n  code\n  ```";
    let markers = detect_fence_markers(content);
    assert_eq!(markers.len(), 2);
    assert_eq!(markers[0].fence_type, FenceType::Backtick);
}

#[test]
fn test_pair_simple_fences() {
    let content = "```\ncode\n```";
    let markers = detect_fence_markers(content);
    let blocks = pair_fences(markers);
    assert_eq!(blocks.len(), 1);
    assert!(blocks[0].closing.is_some());
    assert_eq!(blocks[0].opening.line_num, 0);
    assert_eq!(blocks[0].closing.as_ref().unwrap().line_num, 2);
}

#[test]
fn test_pair_nested_fences() {
    let content = "`````\n```\ncode\n```\n`````";
    let markers = detect_fence_markers(content);
    let blocks = pair_fences(markers);
    // Should have 2 blocks: outer 5-backtick and inner 3-backtick
    assert_eq!(blocks.len(), 2);
}

#[test]
fn test_pair_unclosed_fence() {
    let content = "```\ncode";
    let markers = detect_fence_markers(content);
    let blocks = pair_fences(markers);
    assert_eq!(blocks.len(), 1);
    assert!(blocks[0].closing.is_none());
}

#[test]
fn test_validate_length_mismatch() {
    let content = "```\ncode\n`````";
    let markers = detect_fence_markers(content);
    let blocks = pair_fences(markers);
    let issues = validate_fences(&blocks);
    assert_eq!(issues.len(), 1);
    match &issues[0] {
        FenceIssue::LengthMismatch { .. } => {}
        _ => panic!("Expected LengthMismatch"),
    }
}

#[test]
fn test_validate_type_mismatch() {
    let content = "```\ncode\n~~~";
    let markers = detect_fence_markers(content);
    let blocks = pair_fences(markers);
    // When types don't match, they don't pair, so we get 2 unclosed fences
    // (not a type mismatch issue, since they're not paired)
    assert_eq!(blocks.len(), 2);
    assert!(blocks[0].closing.is_none());
    assert!(blocks[1].closing.is_none());
}

#[test]
fn test_validate_unclosed() {
    let content = "```\ncode";
    let markers = detect_fence_markers(content);
    let blocks = pair_fences(markers);
    let issues = validate_fences(&blocks);
    assert_eq!(issues.len(), 1);
    match &issues[0] {
        FenceIssue::Unclosed { .. } => {}
        _ => panic!("Expected Unclosed"),
    }
}

#[test]
fn test_normalize_length_mismatch() {
    let content = "```python\ncode\n`````";
    let normalized = normalize_fences(content);
    // Both fences should now have 5 backticks
    assert!(normalized.contains("`````python") || normalized.contains("`````"));
    assert!(normalized.contains("`````"));
}

#[test]
fn test_normalize_unclosed_fence() {
    let content = "```python\ncode";
    let normalized = normalize_fences(content);
    // Should have added closing fence
    assert!(normalized.contains("```"));
    // Check that we have both opening (with language) and closing
    assert!(normalized.lines().count() >= 2);
    assert!(normalized
        .lines()
        .last()
        .is_some_and(|l| l.trim().contains('`')));
}

#[test]
fn test_normalize_already_correct() {
    let content = "```python\ncode\n```";
    let normalized = normalize_fences(content);
    assert_eq!(normalized, content);
}

#[test]
fn test_normalize_idempotent() {
    let content = "```python\ncode\n`````";
    let first = normalize_fences(content);
    let second = normalize_fences(&first);
    assert_eq!(first, second);
}

#[test]
fn test_normalize_no_fences() {
    let content = "# Title\n\nNo fences here";
    let normalized = normalize_fences(content);
    assert_eq!(normalized, content);
}

#[test]
fn test_normalize_multiple_blocks() {
    let content = "```\ncode1\n```\n\n```\ncode2\n`````";
    let normalized = normalize_fences(content);
    // Should have fixed the second block
    assert!(!normalized.is_empty());
}

#[test]
fn test_fence_type_detection_backtick() {
    let content = "```\ncode\n```";
    let markers = detect_fence_markers(content);
    assert!(markers.iter().all(|m| m.fence_type == FenceType::Backtick));
}

#[test]
fn test_fence_type_detection_tilde() {
    let content = "~~~\ncode\n~~~";
    let markers = detect_fence_markers(content);
    assert!(markers.iter().all(|m| m.fence_type == FenceType::Tilde));
}

#[test]
fn test_language_specifier_preserved() {
    let content = "```javascript\ncode\n```";
    let normalized = normalize_fences(content);
    assert!(normalized.contains("javascript"));
}

#[test]
fn test_skip_type_mismatch() {
    let content = "```\ncode\n~~~";
    let normalized = normalize_fences(content);
    // When types don't match, they don't pair - so we get 2 unclosed fences instead of a type mismatch
    // normalize_fences will add closing fences for both
    let markers = detect_fence_markers(&normalized);
    assert!(markers.len() >= 2); // At least opening backtick and tilde
}

#[test]
fn test_empty_fence_block() {
    let content = "```\n```";
    let normalized = normalize_fences(content);
    assert_eq!(normalized, content);
}

#[test]
fn test_fence_at_end_of_file() {
    let content = "```\ncode";
    let normalized = normalize_fences(content);
    assert!(normalized.contains("```"));
    assert!(normalized.lines().count() >= 2);
}

#[test]
fn test_indented_fences() {
    let content = "  ```python\n  code\n  ```";
    let normalized = normalize_fences(content);
    // Should preserve indentation
    for line in normalized.lines() {
        if line.contains('`') {
            assert!(line.starts_with("  "));
        }
    }
}
