use ascfix::cli::Mode;
use ascfix::config::Config;
use ascfix::modes::{content_needs_fixing, process_by_mode};

fn default_config() -> Config {
    Config::default()
}

#[test]
fn mod_test_all_modes_are_safe() {
    let content = "# Header\n\nText content\n\nMore text";
    let safe_result = process_by_mode(&Mode::Safe, content, false, &default_config());
    let diagram_result = process_by_mode(&Mode::Diagram, content, false, &default_config());
    let check_result = process_by_mode(&Mode::Check, content, false, &default_config());

    // All modes should handle content safely (no crashes, no panics)
    assert!(!safe_result.is_empty());
    assert!(!diagram_result.is_empty());
    assert!(!check_result.is_empty());
}

#[test]
fn test_content_needs_fixing_detects_differences() {
    let original = "┌──┐\n│Hi│\n└──┘";
    let processed = process_by_mode(&Mode::Diagram, original, false, &default_config());
    // If there are primitives, processing might change formatting
    // Check that comparison would detect the difference
    let needs_fixing = content_needs_fixing(original, &processed);
    // This depends on if diagram mode changes anything
    let _ = needs_fixing; // Just verify function compiles
}

#[test]
fn test_content_needs_fixing_detects_identical() {
    let original = "# Title\n\nNo diagrams";
    let processed = process_by_mode(&Mode::Diagram, original, false, &default_config());
    // When no changes are made, content should be identical
    let needs_fixing = content_needs_fixing(original, &processed);
    assert!(!needs_fixing);
}

#[test]
fn test_content_needs_fixing_simple_case() {
    let original = "abc";
    let modified = "def";
    assert!(content_needs_fixing(original, modified));
}

#[test]
fn test_content_needs_fixing_identical_strings() {
    let content = "exact same content";
    assert!(!content_needs_fixing(content, content));
}

#[test]
fn test_content_needs_fixing_ignores_trailing_whitespace() {
    let original = "line1\nline2";
    let modified = "line1\nline2";
    assert!(!content_needs_fixing(original, modified));
}
