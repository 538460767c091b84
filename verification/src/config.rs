//! Configuration values for ascfix.
//!
//! The settings a configuration file may carry, with their defaults.

use vstd::prelude::*;

verus! {

/// Default maximum line length.
pub const DEFAULT_MAX_LINE_LENGTH: usize = 120;

/// Default padding inside boxes.
pub const DEFAULT_BOX_PADDING: usize = 1;

/// Configuration for diagram formatting
#[derive(Debug, Clone)]
pub struct FormattingConfig {
    /// Maximum line length for wrapping
    pub max_line_length: usize,
    /// Padding inside boxes
    pub box_padding: usize,
    /// Whether to preserve Unicode characters
    pub preserve_unicode: bool,
    /// Whether to validate diagrams
    pub validate_diagrams: bool,
}

impl Default for FormattingConfig {
    fn default() -> (r: Self)
        ensures
            r.max_line_length == DEFAULT_MAX_LINE_LENGTH,
            r.box_padding == DEFAULT_BOX_PADDING,
            r.preserve_unicode,
            !r.validate_diagrams,
    {
        FormattingConfig {
            max_line_length: DEFAULT_MAX_LINE_LENGTH,
            box_padding: DEFAULT_BOX_PADDING,
            preserve_unicode: true,
            validate_diagrams: false,
        }
    }
}

/// Main configuration structure
#[derive(Debug, Clone)]
pub struct Config {
    /// Formatting options
    pub formatting: FormattingConfig,
    /// Whether to enable flowchart support
    pub enable_flowcharts: bool,
    /// Whether to enable sequence diagrams
    pub enable_sequence_diagrams: bool,
}

impl Default for Config {
    fn default() -> (r: Self)
        ensures
            r.formatting.max_line_length == DEFAULT_MAX_LINE_LENGTH,
            r.formatting.box_padding == DEFAULT_BOX_PADDING,
            r.formatting.preserve_unicode,
            !r.formatting.validate_diagrams,
            !r.enable_flowcharts,
            !r.enable_sequence_diagrams,
    {
        Config { formatting: FormattingConfig::default(), enable_flowcharts: false, enable_sequence_diagrams: false }
    }
}

} // verus!
