use ascfix::output::{FileResult, ProcessingStats};

#[test]
fn test_stats_tracking() {
    let mut stats = ProcessingStats::new();
    assert_eq!(stats.total_files, 0);

    stats.record_modified();
    assert_eq!(stats.total_files, 1);
    assert_eq!(stats.modified_files, 1);

    stats.record_unchanged();
    assert_eq!(stats.total_files, 2);
    assert_eq!(stats.unchanged_files, 1);

    stats.record_error();
    assert_eq!(stats.total_files, 3);
    assert_eq!(stats.error_files, 1);
}

#[test]
fn test_file_result_accessors() {
    let result = FileResult::Modified {
        file: "test.md".to_string(),
        transformations: None,
    };

    assert_eq!(result.file_path(), "test.md");
    assert!(result.is_modified());
    assert!(!result.is_error());
}
