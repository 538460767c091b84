use ascfix::links::{detect_links, detect_links_outside_code_blocks, detect_reference_links, is_inside_link_url};

#[test]
fn detect_link_with_parens() {
    let content = "[Wiki](https://en.wikipedia.org/wiki/Pointer_(computer_programming))";
    let links = detect_links(content);
    assert_eq!(links.len(), 1);
    assert_eq!(links[0].text, "Wiki");
    assert_eq!(
        links[0].url,
        "https://en.wikipedia.org/wiki/Pointer_(computer_programming)"
    );
}

#[test]
fn detect_simple_link() {
    let content = "[Example](https://example.com)";
    let links = detect_links(content);
    assert_eq!(links.len(), 1);
    assert_eq!(links[0].text, "Example");
    assert_eq!(links[0].url, "https://example.com");
}

#[test]
fn is_inside_link_url_detects_position() {
    let content = "[Link](https://example.com/path) text";
    let links = detect_links(content);
    assert_eq!(links.len(), 1);

    // Position inside URL
    let url_pos = content.find("example").unwrap();
    assert!(is_inside_link_url(content, url_pos, &links));

    // Position outside URL
    let outside_pos = content.find("text").unwrap();
    assert!(!is_inside_link_url(content, outside_pos, &links));
}

#[test]
fn detect_reference_link_with_parens() {
    let content = "[ref]: https://example.com/path(1)";
    let refs = detect_reference_links(content);
    assert_eq!(refs.len(), 1);
    assert_eq!(refs[0].label, "ref");
    assert_eq!(refs[0].url, "https://example.com/path(1)");
    assert_eq!(refs[0].title, None);
}

#[test]
fn detect_reference_link_with_title() {
    let content = r#"[ref]: https://example.com "title here""#;
    let refs = detect_reference_links(content);
    assert_eq!(refs.len(), 1);
    assert_eq!(refs[0].label, "ref");
    assert_eq!(refs[0].url, "https://example.com");
    assert_eq!(refs[0].title, Some("title here".to_string()));
}

#[test]
fn detect_reference_link_with_parens_title() {
    let content = "[ref]: https://example.com (title here)";
    let refs = detect_reference_links(content);
    assert_eq!(refs.len(), 1);
    assert_eq!(refs[0].label, "ref");
    assert_eq!(refs[0].url, "https://example.com");
    assert_eq!(refs[0].title, Some("title here".to_string()));
}

#[test]
fn detect_links_outside_code_blocks_only() {
    let content =
        "```\n[text](https://inside.code.block)\n```\n\n[Outside](https://outside.link)";
    let links = detect_links_outside_code_blocks(content);
    // Should only find the outside link
    assert_eq!(links.len(), 1);
    assert_eq!(links[0].text, "Outside");
    assert_eq!(links[0].url, "https://outside.link");
}

#[test]
fn detect_links_skips_backtick_fence() {
    let content = "Some text\n\n```python\n# [Link](https://example.com)\n```\n\nMore text";
    let links = detect_links_outside_code_blocks(content);
    // Should not detect the link inside the code fence
    assert!(
        links.is_empty(),
        "Links inside code blocks should be skipped"
    );
}

#[test]
fn detect_links_skips_tilde_fence() {
    let content = "Some text\n\n~~~\n[Link](https://example.com)\n~~~\n\nMore text";
    let links = detect_links_outside_code_blocks(content);
    // Should not detect the link inside the tilde fence
    assert!(
        links.is_empty(),
        "Links inside tilde code blocks should be skipped"
    );
}

#[test]
fn detect_multiple_links_on_one_line() {
    let content = "[First](https://a.com) and [Second](https://b.com/path(1))";
    let links = detect_links(content);
    assert_eq!(links.len(), 2);
    assert_eq!(links[0].text, "First");
    assert_eq!(links[0].url, "https://a.com");
    assert_eq!(links[1].text, "Second");
    assert_eq!(links[1].url, "https://b.com/path(1)");
}

#[test]
fn detect_link_with_deeply_nested_parens() {
    let content = "[Link](https://example.com/a(b(c(d))))";
    let links = detect_links(content);
    assert_eq!(links.len(), 1);
    // URL has 3 opening and 3 closing parens inside, 4th ) closes the link
    assert_eq!(links[0].url, "https://example.com/a(b(c(d)))");
}

#[test]
fn detect_link_with_special_chars_in_url() {
    let content = "[API](https://api.example.com/v1?foo=bar&baz=qux)";
    let links = detect_links(content);
    assert_eq!(links.len(), 1);
    assert_eq!(links[0].url, "https://api.example.com/v1?foo=bar&baz=qux");
}

#[test]
fn detect_link_with_parens_in_text() {
    // Parentheses in link text should not affect URL parsing
    let content = "[click (here)](https://example.com)";
    let links = detect_links(content);
    assert_eq!(links.len(), 1);
    assert_eq!(links[0].text, "click (here)");
    assert_eq!(links[0].url, "https://example.com");
}

#[test]
fn link_detection_is_idempotent() {
    // Running detect_links twice should produce identical results
    let content = "[Link](https://example.com/path(1)) and [Another](https://test.org)";

    let first_pass = detect_links(content);
    // Create a new content string from the detected links (simulating processing)
    let processed: String = first_pass
        .iter()
        .map(|l| format!("[{}]({})", l.text, l.url))
        .collect::<Vec<_>>()
        .join(" and ");

    let second_pass = detect_links(&processed);

    // Should have same number of links
    assert_eq!(first_pass.len(), second_pass.len());

    // Each link should have same text and URL
    for (first, second) in first_pass.iter().zip(second_pass.iter()) {
        assert_eq!(first.text, second.text);
        assert_eq!(first.url, second.url);
    }
}

#[test]
fn link_detection_preserves_content_unchanged() {
    // Content without links should be unchanged
    let content = "Just plain text without any links";
    let links = detect_links(content);
    assert!(links.is_empty());
}
