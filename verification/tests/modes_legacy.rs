use ascfix::cli::Mode;
use ascfix::config::Config;
use ascfix::modes::process_by_mode;
use ascfix::modes::table::{is_table_row, is_table_separator, parse_table_row};

#[test]
fn modes_test_safe_mode_preserves_content() {
    let content = "# Test\n\nSome content";
    let result = process_by_mode(&Mode::Safe, content, false, &Config::default());
    // Safe mode should preserve content for now
    assert_eq!(result, content);
}

#[test]
fn modes_test_diagram_mode_preserves_content() {
    let content = "# Test\n\nSome content";
    let result = process_by_mode(&Mode::Diagram, content, false, &Config::default());
    // Diagram mode should preserve content when no diagrams exist
    assert_eq!(result, content);
}

#[test]
fn modes_test_check_mode_preserves_content() {
    let content = "# Test\n\nSome content";
    let result = process_by_mode(&Mode::Check, content, false, &Config::default());
    // Check mode should use same processing as diagram
    assert_eq!(result, content);
}

#[test]
fn modes_test_all_modes_are_safe() {
    let content = "# Header\n\nText content\n\nMore text";
    let safe_result = process_by_mode(&Mode::Safe, content, false, &Config::default());
    let diagram_result = process_by_mode(&Mode::Diagram, content, false, &Config::default());
    let check_result = process_by_mode(&Mode::Check, content, false, &Config::default());

    // All modes should handle content safely (no crashes, no panics)
    assert!(!safe_result.is_empty());
    assert!(!diagram_result.is_empty());
    assert!(!check_result.is_empty());
}

#[test]
fn modes_test_safe_mode_normalizes_table() {
    let content = "| Name | Age |\n|------|-----|\n| Alice | 30 |\n| Bob | 25 |";
    let result = process_by_mode(&Mode::Safe, content, false, &Config::default());
    // Result should be normalized (may have different spacing)
    assert!(result.contains("| Name"));
    assert!(result.contains("| Age"));
    assert!(result.contains("| Alice"));
    assert!(result.contains("| Bob"));
}

#[test]
fn modes_test_safe_mode_preserves_non_tables() {
    let content = "# Title\n\nSome paragraph.\n\nMore text.";
    let result = process_by_mode(&Mode::Safe, content, false, &Config::default());
    assert_eq!(result, content);
}

#[test]
fn modes_test_safe_mode_misaligned_table() {
    let content = "| A | B |\n|---|---|\n| x| y |";
    let result = process_by_mode(&Mode::Safe, content, false, &Config::default());
    // Should normalize spacing
    assert!(result.contains("| A"));
    assert!(result.contains("| B"));
}

#[test]
fn modes_test_safe_mode_multiple_tables() {
    let content =
        "| H1 | H2 |\n|---|---|\n| a | b |\n\nText\n\n| C | D |\n|---|---|\n| c | d |";
    let result = process_by_mode(&Mode::Safe, content, false, &Config::default());
    // Both tables should be present
    assert!(result.contains("| H1"));
    assert!(result.contains("| C"));
}

#[test]
fn modes_test_table_separator_detection() {
    assert!(is_table_separator("|---|---|"));
    assert!(is_table_separator("| --- | --- |"));
    assert!(is_table_separator("| :--- | ---: |"));
    assert!(!is_table_separator("| abc | def |"));
    assert!(!is_table_separator("no pipes here"));
}

#[test]
fn modes_test_table_row_detection() {
    assert!(is_table_row("| A | B |"));
    assert!(is_table_row("|A|B|"));
    assert!(is_table_row("  | A | B |  "));
    assert!(!is_table_row("A | B"));
    assert!(!is_table_row("| A | B"));
}

#[test]
fn modes_test_parse_table_row() {
    let cells = parse_table_row("| Name | Age |");
    assert_eq!(cells, Some(vec!["Name".to_string(), "Age".to_string()]));

    let cells2 = parse_table_row("|A|B|C|");
    assert_eq!(
        cells2,
        Some(vec!["A".to_string(), "B".to_string(), "C".to_string()])
    );

    let invalid = parse_table_row("no pipes");
    assert_eq!(invalid, None);
}
