use ascfix::cli::Mode;
use ascfix::config::Config;
use ascfix::modes::diagram::process_diagram_mode;
use ascfix::modes::process_by_mode;

fn default_config() -> Config {
    Config::default()
}

#[test]
fn diagram_test_diagram_mode_preserves_content() {
    let content = "# Test\n\nSome content";
    let result = process_diagram_mode(content, &default_config());
    // Diagram mode should preserve content when no diagrams exist
    assert_eq!(result, content);
}

#[test]
fn test_diagram_mode_processes_boxes() {
    let content = "┌─┐\n│ │\n└─┘";
    let result = process_diagram_mode(content, &default_config());
    // Should render the diagram (may change spacing but keep structure)
    assert!(result.contains("┌"));
    assert!(result.contains("└"));
    assert!(result.contains("│"));
}

#[test]
fn test_diagram_mode_preserves_non_diagram_text() {
    let content = "# Title\n\nSome text\n\nMore content";
    let result = process_diagram_mode(content, &default_config());
    // Non-diagram content should be preserved
    assert!(result.contains("# Title"));
    assert!(result.contains("Some text"));
}

#[test]
fn test_fence_repair_in_pipeline() {
    let content = "```python\ncode\n`````";
    // Test with fence repair enabled via process_by_mode
    let result =
        process_by_mode(&Mode::Diagram, content, true, &default_config());
    // Fences should be normalized before diagram processing
    assert!(result.contains('`'));
}
