use ascfix::discovery;


#[test]
fn discovery_tests_test_parse_extensions_single() {
    let result = discovery::parse_extensions(".md").expect("Failed to parse");
    assert_eq!(result, vec![".md"]);
}

#[test]
fn test_parse_extensions_multiple() {
    let result = discovery::parse_extensions(".md,.mdx,.txt").expect("Failed to parse");
    assert_eq!(result, vec![".md", ".mdx", ".txt"]);
}

#[test]
fn test_parse_extensions_without_dots() {
    let result = discovery::parse_extensions("md,mdx").expect("Failed to parse");
    assert_eq!(result, vec![".md", ".mdx"]);
}

#[test]
fn test_parse_extensions_mixed_dots() {
    let result = discovery::parse_extensions(".md,mdx,.txt").expect("Failed to parse");
    assert_eq!(result, vec![".md", ".mdx", ".txt"]);
}

#[test]
fn test_parse_extensions_with_spaces() {
    let result = discovery::parse_extensions(" .md , mdx , .txt ").expect("Failed to parse");
    assert_eq!(result, vec![".md", ".mdx", ".txt"]);
}

#[test]
fn test_parse_extensions_empty_string_error() {
    let result = discovery::parse_extensions("");
    assert!(result.is_err());
}

#[test]
fn test_parse_extensions_only_commas_error() {
    let result = discovery::parse_extensions(",,,");
    assert!(result.is_err());
}
