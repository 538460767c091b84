use ascfix::quality::{
    check_data_loss, count_text_chars, has_unclosed_corner, is_arrow_corrupting_text, is_pipe_in_text,
    is_pipe_in_text_content, normalize_output, space_counts, text_corruption_issues, LostContent,
    QualityIssue,
};

#[test]
fn text_characters_are_counted_over_lines() {
    assert_eq!(count_text_chars("ab 1!\n→x"), 6);
    assert_eq!(count_text_chars(""), 0);
    assert_eq!(count_text_chars("┌──┐\r\n"), 0);
    assert_eq!(count_text_chars("é½"), 2);
}

#[test]
fn arrows_and_pipes_between_letters() {
    let v: Vec<char> = "a↑b".chars().collect();
    assert!(is_arrow_corrupting_text(&v, 1));
    assert!(!is_arrow_corrupting_text(&v, 0));
    assert!(!is_arrow_corrupting_text(&v, 2));
    assert!(!is_arrow_corrupting_text(&Vec::new(), 0));
    let w: Vec<char> = "a│ ".chars().collect();
    assert!(is_pipe_in_text_content(&w, 1));
    assert!(is_pipe_in_text(&w, 1));
    let x: Vec<char> = " │ ".chars().collect();
    assert!(!is_pipe_in_text_content(&x, 1));
    assert!(is_pipe_in_text(&x, 1));
    let y: Vec<char> = "─│─".chars().collect();
    assert!(!is_pipe_in_text(&y, 1));
}

#[test]
fn data_loss_is_found() {
    assert!(check_data_loss("a\nb", "a\nb").is_empty());
    let issues = check_data_loss("a", "a\nb\nc\nd");
    assert_eq!(issues.len(), 1);
    assert!(matches!(issues[0], QualityIssue::DataLoss { content_type: LostContent::TextLine, line: 1 }));
    let long = "x".repeat(120);
    let issues = check_data_loss(&long, "x");
    assert_eq!(issues.len(), 1);
    assert!(matches!(issues[0], QualityIssue::DataLoss { content_type: LostContent::TextLine, line: 0 }));
    // Exactly 100 bytes is not enough to count a shrink.
    assert!(check_data_loss(&"x".repeat(100), "x").is_empty());
}

#[test]
fn corruption_issues_are_found_by_line() {
    let issues = text_corruption_issues("ok\nCl↑an │ x");
    assert_eq!(issues.len(), 1);
    match &issues[0] {
        QualityIssue::TextCorruption { line, expected, got } => {
            assert_eq!(*line, 1);
            assert_eq!(expected, "text content");
            assert_eq!(got, "↑");
        }
        _ => panic!("expected a text corruption"),
    }
    assert_eq!(text_corruption_issues("a│b").len(), 1);
    assert!(text_corruption_issues("┌──┐\n│  │").is_empty());
}

#[test]
fn visual_line_facts() {
    assert!(has_unclosed_corner("┌──"));
    assert!(!has_unclosed_corner("┌─┐"));
    assert!(!has_unclosed_corner("plain"));
    assert_eq!(space_counts("a  b"), (2, 2));
    assert_eq!(space_counts(""), (0, 0));
}

#[test]
fn outputs_are_normalized_for_comparison() {
    assert_eq!(normalize_output("  a  \r\nb \n\n"), "a\nb");
    assert_eq!(normalize_output(""), "");
    assert_eq!(normalize_output("x\n  y\t"), "x\n  y");
}
