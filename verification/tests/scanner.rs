use ascfix::scanner::extract_diagram_blocks;

#[test]
fn test_single_diagram_block() {
    let markdown = "Line 1\nLine 2\nLine 3";
    let blocks = extract_diagram_blocks(markdown);
    assert_eq!(blocks.len(), 1);
    // Lines are now masked, so we check the count instead
    assert_eq!(blocks[0].lines.len(), 3);
    assert_eq!(blocks[0].inline_code_spans.len(), 3);
}

#[test]
fn test_multiple_diagram_blocks() {
    let markdown = "Block1Line1\nBlock1Line2\n\nBlock2Line1\nBlock2Line2\n\nBlock3";
    let blocks = extract_diagram_blocks(markdown);
    assert_eq!(blocks.len(), 3);
    assert_eq!(blocks[0].lines.len(), 2);
    assert_eq!(blocks[1].lines.len(), 2);
    assert_eq!(blocks[2].lines.len(), 1);
}

#[test]
fn test_preserves_start_line_number() {
    let markdown = "Line0\n\n\nLine3\nLine4\n\nLine6";
    let blocks = extract_diagram_blocks(markdown);
    assert_eq!(blocks[0].start_line, 0);
    assert_eq!(blocks[1].start_line, 3);
    assert_eq!(blocks[2].start_line, 6);
}

#[test]
fn test_ignores_content_in_code_fence() {
    let markdown = "Visible1\n\n```\nHidden\n```\n\nVisible2";
    let blocks = extract_diagram_blocks(markdown);
    // Visible1, code fence (ignored), Visible2 = 2 blocks
    assert_eq!(blocks.len(), 2);
    assert_eq!(blocks[0].lines.len(), 1);
    assert_eq!(blocks[1].lines.len(), 1);
}

#[test]
fn scanner_test_empty_markdown() {
    let markdown = "";
    let blocks = extract_diagram_blocks(markdown);
    assert!(blocks.is_empty());
}

#[test]
fn test_only_blank_lines() {
    let markdown = "\n\n\n";
    let blocks = extract_diagram_blocks(markdown);
    assert!(blocks.is_empty());
}

#[test]
fn test_preserves_line_content() {
    let markdown = "  Indented  \n\tTabbed\nNormal";
    let blocks = extract_diagram_blocks(markdown);
    assert_eq!(blocks.len(), 1);
    // Verify structure is preserved
    assert_eq!(blocks[0].lines.len(), 3);
    assert_eq!(blocks[0].inline_code_spans.len(), 3);
    // Verify no inline code was detected in these lines
    assert_eq!(blocks[0].inline_code_spans[0].len(), 0);
    assert_eq!(blocks[0].inline_code_spans[1].len(), 0);
    assert_eq!(blocks[0].inline_code_spans[2].len(), 0);
}

#[test]
fn test_multiple_blank_lines_separate_blocks() {
    let markdown = "Block1\n\n\n\nBlock2";
    let blocks = extract_diagram_blocks(markdown);
    assert_eq!(blocks.len(), 2);
    assert_eq!(blocks[0].lines.len(), 1);
    assert_eq!(blocks[1].lines.len(), 1);
}
