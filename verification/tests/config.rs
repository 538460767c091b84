use ascfix::config::{Config, DEFAULT_BOX_PADDING, DEFAULT_MAX_LINE_LENGTH};

#[test]
fn test_default_config() {
    let config = Config::default();
    assert_eq!(config.formatting.max_line_length, DEFAULT_MAX_LINE_LENGTH);
    assert_eq!(config.formatting.box_padding, DEFAULT_BOX_PADDING);
    assert!(config.formatting.preserve_unicode);
    assert!(!config.enable_flowcharts);
}
