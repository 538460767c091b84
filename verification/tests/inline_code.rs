use ascfix::inline_code::{detect_inline_code_spans, mask_inline_code, restore_inline_code};

#[test]
fn test_detect_single_inline_code() {
    let line = "Some text `code` here";
    let spans = detect_inline_code_spans(line);
    assert_eq!(spans.len(), 1);
    assert_eq!(spans[0].content, "`code`");
}

#[test]
fn test_detect_multiple_inline_codes() {
    let line = "`first` and `second` text";
    let spans = detect_inline_code_spans(line);
    assert_eq!(spans.len(), 2);
    assert_eq!(spans[0].content, "`first`");
    assert_eq!(spans[1].content, "`second`");
}

#[test]
fn test_detect_inline_code_with_arrows() {
    let line = "Use these arrows: `⇒ ⇓ ⇑ ⇐`";
    let spans = detect_inline_code_spans(line);
    assert_eq!(spans.len(), 1);
    assert_eq!(spans[0].content, "`⇒ ⇓ ⇑ ⇐`");
}

#[test]
fn test_detect_inline_code_with_box_drawing() {
    let line = "Box chars: `┌─┐`";
    let spans = detect_inline_code_spans(line);
    assert_eq!(spans.len(), 1);
    assert_eq!(spans[0].content, "`┌─┐`");
}

#[test]
fn test_escaped_backticks_not_code() {
    let line = "Escaped: \\` not code";
    let spans = detect_inline_code_spans(line);
    assert_eq!(spans.len(), 0);
}

#[test]
fn test_unbalanced_backticks() {
    let line = "Unbalanced `code without closing";
    let spans = detect_inline_code_spans(line);
    // Unbalanced cases should not be added (conservative)
    assert_eq!(spans.len(), 0);
}

#[test]
fn inline_code_test_empty_inline_code() {
    let line = "Empty: `` code";
    let spans = detect_inline_code_spans(line);
    assert_eq!(spans.len(), 1);
    assert_eq!(spans[0].content, "``");
}

#[test]
fn test_mask_inline_code() {
    let line = "Text `code` here";
    let (masked, spans) = mask_inline_code(line);
    assert_eq!(spans.len(), 1);
    // Verify masked line has spaces where code was
    assert!(masked.contains("     "));
    // Verify content is preserved in spans
    assert_eq!(spans[0].content, "`code`");
}

#[test]
fn test_mask_preserves_column_positions() {
    let line = "A `bc` D";
    let (masked, _) = mask_inline_code(line);
    // Positions should be preserved
    assert_eq!(masked.len(), line.len());
    // Check specific characters
    assert_eq!(masked.chars().nth(0), Some('A'));
    assert_eq!(masked.chars().nth(2), Some(' ')); // Opening backtick replaced
    assert_eq!(masked.chars().nth(6), Some(' ')); // Closing backtick replaced
    assert_eq!(masked.chars().nth(7), Some('D'));
}

#[test]
fn test_restore_inline_code() {
    let line = "Text `code` here";
    let (masked, spans) = mask_inline_code(line);
    let restored = restore_inline_code(&masked, &spans);
    assert_eq!(restored, line);
}

#[test]
fn test_mask_and_restore_cycle() {
    let line = "Use `⇒ ⇓ ⇑ ⇐` arrows";
    let (masked, spans) = mask_inline_code(line);
    let restored = restore_inline_code(&masked, &spans);
    assert_eq!(restored, line);
}

#[test]
fn test_multiple_spans_mask_restore() {
    let line = "`first` and `second` code";
    let (masked, spans) = mask_inline_code(line);
    assert_eq!(spans.len(), 2);
    let restored = restore_inline_code(&masked, &spans);
    assert_eq!(restored, line);
}

#[test]
fn test_restore_without_spans() {
    let line = "Plain text without code";
    let (masked, spans) = mask_inline_code(line);
    assert_eq!(spans.len(), 0);
    let restored = restore_inline_code(&masked, &spans);
    assert_eq!(restored, line);
}

#[test]
fn test_inline_code_with_unicode_escapes() {
    let line = "Extended: `⟶ ⟹ ⟸` arrows";
    let spans = detect_inline_code_spans(line);
    assert_eq!(spans.len(), 1);
    assert_eq!(spans[0].content, "`⟶ ⟹ ⟸`");
    let (masked, masking_spans) = mask_inline_code(line);
    let restored = restore_inline_code(&masked, &masking_spans);
    assert_eq!(restored, line);
}

#[test]
fn test_spans_include_backticks() {
    let line = "Code: `hello`";
    let spans = detect_inline_code_spans(line);
    assert_eq!(spans.len(), 1);
    // Spans should include the backticks
    assert_eq!(spans[0].content, "`hello`");
    assert!(spans[0].content.starts_with('`'));
    assert!(spans[0].content.ends_with('`'));
}

#[test]
fn test_span_positions_accurate() {
    let line = "Start `code` end";
    let spans = detect_inline_code_spans(line);
    assert_eq!(spans.len(), 1);
    assert_eq!(spans[0].start_col, 6);
    assert_eq!(spans[0].end_col, 11);
    // Extract the substring to verify positions
    let line_chars: Vec<char> = line.chars().collect();
    let extracted: String = line_chars[spans[0].start_col..=spans[0].end_col]
        .iter()
        .collect();
    assert_eq!(extracted, "`code`");
}
