use ascfix::discovery::parse_extensions;

#[test]
fn discovery_test_parse_extensions_single() {
    let result = parse_extensions(".md").expect("Failed to parse");
    assert_eq!(result, vec![".md"]);
}

#[test]
fn test_parse_extensions_normalizes_without_dot() {
    let result = parse_extensions("md").expect("Failed to parse");
    assert_eq!(result, vec![".md"]);
}
