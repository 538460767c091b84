use ascfix::modes::table::{is_table_row, is_table_separator, normalize_table, parse_table_row};

#[test]
fn test_table_module_exports() {
    // Verify table functions accessible
    assert!(is_table_row("| A | B |"));
    assert!(is_table_separator("|---|---|"));
    let cells = parse_table_row("| Name | Age |");
    assert_eq!(cells, Some(vec!["Name".to_string(), "Age".to_string()]));
}

#[test]
fn table_test_table_separator_detection() {
    assert!(is_table_separator("|---|---|"));
    assert!(is_table_separator("| --- | --- |"));
    assert!(is_table_separator("| :--- | ---: |"));
    assert!(!is_table_separator("| abc | def |"));
    assert!(!is_table_separator("no pipes here"));
}

#[test]
fn table_test_table_row_detection() {
    assert!(is_table_row("| A | B |"));
    assert!(is_table_row("|A|B|"));
    assert!(is_table_row("  | A | B |  "));
    assert!(!is_table_row("A | B"));
    assert!(!is_table_row("| A | B"));
}

#[test]
fn table_test_parse_table_row() {
    let cells = parse_table_row("| Name | Age |");
    assert_eq!(cells, Some(vec!["Name".to_string(), "Age".to_string()]));

    let cells2 = parse_table_row("|A|B|C|");
    assert_eq!(
        cells2,
        Some(vec!["A".to_string(), "B".to_string(), "C".to_string()])
    );

    let invalid = parse_table_row("no pipes");
    assert_eq!(invalid, None);
}

#[test]
fn test_normalize_table() {
    let header = "| Name | Age |";
    let separator = "|------|-----|";
    let rows = vec!["| Alice | 30 |", "| Bob | 25 |"];
    let result = normalize_table(header, separator, &rows);
    assert!(result.is_some());
    let normalized = result.unwrap();
    assert!(normalized.contains("Alice"));
    assert!(normalized.contains("Bob"));
}
