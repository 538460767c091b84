use ascfix::cli::Mode;
use ascfix::config::Config;
use ascfix::modes::process_by_mode;

#[test]
fn fence_repair_with_diagram_mode() {
    // Test that fence repair can be combined with diagram repair
    let input = "```python\ncode\n`````\n\n┌─┐\n│a│\n└─┘";

    // Process with both fence repair and diagram mode
    let result = process_by_mode(
        &Mode::Diagram,
        input,
        true,
        &Config::default(),
    );

    // Should have:
    // 1. Fixed the fence lengths
    // 2. Processed the diagram
    assert!(!result.is_empty());
    assert!(result.contains("python") || result.contains("code"));
}

#[test]
fn fence_repair_disabled_by_default() {
    let input = "```python\ncode\n`````";

    // Process without fence repair
    let result = process_by_mode(
        &Mode::Safe,
        input,
        false,
        &Config::default(),
    );

    // Should be unchanged (fence repair not applied)
    assert_eq!(result, input);
}

#[test]
fn fence_repair_preserves_content() {
    let input = "# Header\n\n```python\nprint('hello')\n`````\n\nSome text";

    // Process with fence repair
    let result = process_by_mode(
        &Mode::Safe,
        input,
        true,
        &Config::default(),
    );

    // Should preserve all content
    assert!(result.contains("# Header"));
    assert!(result.contains("print('hello')"));
    assert!(result.contains("Some text"));
}

#[test]
fn fence_repair_already_correct() {
    let input = "```python\ncode\n```";

    // Process with fence repair
    let result = process_by_mode(
        &Mode::Safe,
        input,
        true,
        &Config::default(),
    );

    // Should be unchanged when already correct
    assert_eq!(result, input);
}

#[test]
fn fence_repair_unclosed_fence() {
    let input = "```python\ncode";

    // Process with fence repair
    let result = process_by_mode(
        &Mode::Safe,
        input,
        true,
        &Config::default(),
    );

    // Should have added closing fence
    assert!(result.contains("```"));
    // Should have at least 3 lines (opening, code, closing)
    assert!(result.lines().count() >= 2);
}

#[test]
fn fence_repair_multiple_blocks() {
    let input = "```\ncode1\n```\n\n```\ncode2\n`````";

    // Process with fence repair
    let result = process_by_mode(
        &Mode::Safe,
        input,
        true,
        &Config::default(),
    );

    // Should have fixed both blocks
    assert!(result.contains("code1"));
    assert!(result.contains("code2"));
    // Check that fences are balanced
    let fence_count = result.matches("```").count();
    assert_eq!(fence_count % 2, 0, "Fences should be balanced");
}

#[test]
fn fence_repair_mixed_types() {
    // Mix of backticks and tildes - should not try to fix type mismatches
    let input = "```\ncode\n~~~";

    // Process with fence repair
    let result = process_by_mode(
        &Mode::Safe,
        input,
        true,
        &Config::default(),
    );

    // Should handle gracefully (conservative approach)
    assert!(!result.is_empty());
}

#[test]
fn fence_repair_with_language_specifier() {
    let input = "```javascript\ncode\n`````";

    // Process with fence repair
    let result = process_by_mode(
        &Mode::Safe,
        input,
        true,
        &Config::default(),
    );

    // Should preserve language specifier
    assert!(result.contains("javascript"));
    // And balance the fences
    assert!(result.lines().filter(|l| l.contains('`')).count() >= 2);
}
