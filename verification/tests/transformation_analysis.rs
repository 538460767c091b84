use ascfix::transformation_analysis::{
    analyze_transformations, ConstructiveReason, DestructiveReason, Location, TransformationType,
};

#[test]
fn test_arrow_duplication_classification() {
    let input = "     ↓\n┌────┐\n│    │\n└────┘\n     ↓";
    let output = "    ↓↓\n┌────┐\n│    │\n└────┘\n    ↓↓";

    let analysis = analyze_transformations(input, output);

    // Should classify arrow duplication as constructive
    assert!(analysis.transformations.iter().any(|t| matches!(
        t.transform_type,
        TransformationType::Constructive(ConstructiveReason::ArrowDuplication)
    )));

    // Should have positive quality impact
    assert!(analysis.summary.net_impact > 0);

    // Should have low risk score
    let risk = analysis.summary.destructive_count as f32 / analysis.transformations.len() as f32;
    assert!(risk < 0.5);
}

#[test]
fn test_destructive_transformation() {
    let input = "Hello World";
    let output = "H↑llo W↑rld";

    let analysis = analyze_transformations(input, output);

    // Should classify as destructive
    assert!(analysis
        .transformations
        .iter()
        .any(|t| matches!(t.transform_type, TransformationType::Destructive(_))));

    // Should have negative quality impact
    assert!(analysis.summary.net_impact < 0);

    // Should have high risk score
    let risk = analysis.summary.destructive_count as f32 / analysis.transformations.len() as f32;
    assert!(risk > 0.5);
}

#[test]
fn unchanged_text_shows_no_transformation() {
    let text = "┌──┐\n│ a│\n└──┘\nplain text";
    let analysis = analyze_transformations(text, text);
    assert!(analysis.transformations.is_empty());
    assert_eq!(analysis.summary.destructive_count, 0);
    assert_eq!(analysis.summary.constructive_count, 0);
    assert_eq!(analysis.summary.neutral_count, 0);
    assert_eq!(analysis.summary.net_impact, 0);
}

#[test]
fn arrows_in_text_are_character_corruption() {
    let analysis = analyze_transformations("Hello World", "H↑llo W↑rld");
    assert_eq!(analysis.transformations.len(), 2);
    let first = &analysis.transformations[0];
    assert_eq!(
        first.transform_type,
        TransformationType::Destructive(DestructiveReason::CharacterCorruption)
    );
    assert_eq!(first.location, Location { line: 0, col_start: 1, col_end: 2 });
    assert_eq!(first.description, "'e' → '↑'");
    assert_eq!(first.impact, -80);
    assert_eq!(analysis.transformations[1].location.col_start, 7);
    assert_eq!(analysis.summary.destructive_count, 2);
    assert_eq!(analysis.summary.net_impact, -160);
}

#[test]
fn runs_of_changes_count_once_and_spaces_delete_content() {
    // "bcd" differs in one run: one transformation, at its start.
    let analysis = analyze_transformations("abcde", "a   e");
    assert_eq!(analysis.transformations.len(), 1);
    assert_eq!(
        analysis.transformations[0].transform_type,
        TransformationType::Destructive(DestructiveReason::ContentDeletion)
    );
    assert_eq!(analysis.transformations[0].impact, -50);
    assert_eq!(analysis.transformations[0].description, "'b' → ' '");
}

#[test]
fn unrecognized_change_is_neutral() {
    let analysis = analyze_transformations("+--+", "+==+");
    assert_eq!(analysis.transformations.len(), 1);
    assert!(matches!(analysis.transformations[0].transform_type, TransformationType::Neutral(_)));
    assert_eq!(analysis.transformations[0].impact, 0);
    assert_eq!(analysis.summary.neutral_count, 1);
}

#[test]
fn length_and_line_count_changes() {
    let analysis = analyze_transformations("abc", "ab");
    assert_eq!(analysis.transformations.len(), 1);
    let t = &analysis.transformations[0];
    assert_eq!(t.transform_type, TransformationType::Destructive(DestructiveReason::DataLoss));
    assert_eq!(t.location, Location { line: 0, col_start: 2, col_end: 3 });
    assert_eq!(t.description, "Content length mismatch: 3 vs 2 chars");
    assert_eq!(t.impact, -30);

    let analysis = analyze_transformations("a\nb", "a");
    assert_eq!(analysis.transformations.len(), 1);
    let t = &analysis.transformations[0];
    assert_eq!(t.transform_type, TransformationType::Destructive(DestructiveReason::DataLoss));
    assert_eq!(t.location, Location { line: 2, col_start: 0, col_end: 0 });
    assert_eq!(t.description, "Line count changed: 2 → 1");
    assert_eq!(t.impact, -50);

    let analysis = analyze_transformations("a", "a\nb");
    let t = &analysis.transformations[0];
    assert_eq!(t.transform_type, TransformationType::Constructive(ConstructiveReason::VisualAlignment));
    assert_eq!(t.impact, 10);
    assert_eq!(analysis.summary.constructive_count, 1);
}

#[test]
fn space_to_arrow_next_to_arrow_is_alignment() {
    let analysis = analyze_transformations("     ↓", "    ↓↓");
    assert_eq!(analysis.transformations.len(), 1);
    let t = &analysis.transformations[0];
    assert_eq!(
        t.transform_type,
        TransformationType::Constructive(ConstructiveReason::ArrowDuplication)
    );
    assert_eq!(t.location, Location { line: 0, col_start: 4, col_end: 5 });
    assert_eq!(t.impact, 30);
    assert_eq!(analysis.summary.net_impact, 30);
}
