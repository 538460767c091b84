use ascfix::tables::{contains_code_fence, has_incomplete_link_across_rows, has_wrapped_cells, unwrap_table_rows};

#[test]
fn detect_non_wrapped_table() {
    let content = "| Name | Description |\n|------|-------------|\n| Item | Short desc |";
    assert!(
        !has_wrapped_cells(content),
        "Should not detect wrapping in normal table"
    );
}

#[test]
fn unwrap_single_wrapped_cell() {
    let rows = vec!["| Item | This is a very |", "|      | long description |"];
    let unwrapped = unwrap_table_rows(&rows);
    assert_eq!(unwrapped.len(), 1);
    assert_eq!(unwrapped[0], "| Item | This is a very long description |");
}

#[test]
fn detect_wrapped_table_cell() {
    let content = "| Name | Description |\n|------|-------------|\n| Item | This is a very |\n|      | long description |";
    assert!(has_wrapped_cells(content), "Should detect wrapped cells");
}

#[test]
fn unwrap_multiple_wrapped_columns() {
    // Test table where multiple columns have wrapped content
    let rows = vec!["| x | very | z |", "|   | long |   |", "|   | text |   |"];
    let unwrapped = unwrap_table_rows(&rows);
    assert_eq!(unwrapped.len(), 1);
    assert_eq!(unwrapped[0], "| x | very long text | z |");
}

#[test]
fn preserve_intentional_multiline_code_block() {
    // Table cell with code block should NOT be unwrapped
    let rows = vec![
        "| Code | Example |",
        "| ```python | of code |",
        "| def hello(): | inside |",
        "| ``` | cell |",
    ];
    let unwrapped = unwrap_table_rows(&rows);
    // Should preserve all 4 rows since there's a code block
    assert_eq!(unwrapped.len(), 4);
}

#[test]
fn unwrap_wrapped_but_not_code() {
    // Regular wrapped text should be joined, but code blocks preserved
    let rows = vec!["| A | This is a very |", "|   | long description |"];
    let unwrapped = unwrap_table_rows(&rows);
    assert_eq!(unwrapped.len(), 1);
    assert_eq!(unwrapped[0], "| A | This is a very long description |");
}

#[test]
fn detect_code_fence_in_cell() {
    // Test detection of code fences inside table cells
    assert!(contains_code_fence("| ```python | code |"));
    assert!(contains_code_fence("| ``` | end |"));
    assert!(contains_code_fence("| ~~~bash | script |"));
    assert!(!contains_code_fence("| normal text | here |"));
    assert!(!contains_code_fence("| no code | fence |"));
}

#[test]
fn preserve_incomplete_link_across_wrap() {
    // Link that spans wrap boundary should NOT be unwrapped
    let rows = vec![
        "| Item | [Docs](https://example.com/very |",
        "|      | long/path) more text |",
    ];
    let unwrapped = unwrap_table_rows(&rows);
    // Should preserve both rows since link spans boundary
    assert_eq!(
        unwrapped.len(),
        2,
        "Should preserve rows when link spans boundary"
    );
    assert!(unwrapped[0].contains("[Docs]"));
    assert!(unwrapped[1].contains("long/path)"));
}

#[test]
fn unwrap_complete_link_on_one_line() {
    // Complete link on one line should allow unwrapping
    let rows = vec![
        "| Item | [Docs](https://example.com/path) |",
        "|      | more description text |",
    ];
    let unwrapped = unwrap_table_rows(&rows);
    // Should unwrap since link is complete on first line
    assert_eq!(unwrapped.len(), 1);
    assert!(unwrapped[0].contains("[Docs](https://example.com/path)"));
    assert!(unwrapped[0].contains("more description text"));
}

#[test]
fn detect_incomplete_link_in_rows() {
    // Test detection of incomplete links
    assert!(has_incomplete_link_across_rows(&[
        "| [Link](http://x |",
        "| /path) |"
    ]));
    assert!(!has_incomplete_link_across_rows(&[
        "| [Link](http://x/path) |",
        "| more text |"
    ]));
}
