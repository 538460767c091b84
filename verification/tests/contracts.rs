use ascfix::cli::{
    add_ext_value, default_extensions, effective_fences, effective_mode, normalize_exts, parse_mode, parse_size,
    validate_args, ArgsError, Mode, SizeError,
};
use ascfix::config::Config;
use ascfix::discovery::{is_skipped_name, parse_extensions, ExtensionsError, FileDiscovery};
use ascfix::grid::Grid;
use ascfix::inline_code::{mask_inline_code, restore_inline_code};
use ascfix::lists::{detect_lists, normalize_list_indentation, normalize_lists};
use ascfix::modes::check::process_check_mode;
use ascfix::modes::diagram::process_diagram_mode;
use ascfix::modes::safe::process_safe_mode;
use ascfix::modes::{content_needs_fixing, process_by_mode};
use ascfix::normalizer::{balance_horizontal_boxes, normalize_box_widths, normalize_nested_boxes};
use ascfix::output::{FileResult, ProcessingStats, StatsOutput};
use ascfix::primitives::{Box, BoxStyle, PrimitiveInventory, TextRow};
use ascfix::processor::{exceeds_max_size, exit_code, file_action, FileAction, OutputFlags};

fn boxed(top_left: (usize, usize), bottom_right: (usize, usize)) -> Box {
    Box { top_left, bottom_right, style: BoxStyle::Single, parent_idx: None, child_indices: Vec::new() }
}

#[test]
fn lines_of_joined_lines_round_trip() {
    let text = "alpha\n\nbeta\ngamma";
    let lines: Vec<&str> = text.lines().collect();
    let rendered = Grid::from_lines(&lines).render();
    assert_eq!(rendered, text);
    let again: Vec<&str> = rendered.lines().collect();
    assert_eq!(Grid::from_lines(&again).render(), rendered);
}

#[test]
fn mask_then_restore_gives_line_back() {
    let line = "a `x|y` b `→` c";
    let (masked, spans) = mask_inline_code(line);
    assert_ne!(masked, line);
    assert_eq!(masked.chars().count(), line.chars().count());
    assert_eq!(restore_inline_code(&masked, &spans), line);
}

#[test]
fn parse_extensions_errors_and_values() {
    assert_eq!(parse_extensions("").unwrap_err(), ExtensionsError::Empty);
    assert_eq!(parse_extensions("   ").unwrap_err(), ExtensionsError::Empty);
    assert_eq!(parse_extensions(" , ,").unwrap_err(), ExtensionsError::NoValidExtensions);
    assert_eq!(parse_extensions("md, .txt ,,mdx").unwrap(), vec![".md", ".txt", ".mdx"]);
    assert_eq!(ExtensionsError::Empty.message(), "extensions string is empty");
    assert_eq!(ExtensionsError::NoValidExtensions.message(), "no valid extensions found");
}

#[test]
fn parse_size_units_and_errors() {
    assert_eq!(parse_size("1024"), Ok(1024));
    assert_eq!(parse_size("10B"), Ok(10));
    assert_eq!(parse_size("1KB"), Ok(1024));
    assert_eq!(parse_size("2MB"), Ok(2 * 1024 * 1024));
    assert_eq!(parse_size("3GB"), Ok(3 * 1024 * 1024 * 1024));
    assert_eq!(parse_size(" 2mb "), Ok(2 * 1024 * 1024));
    assert_eq!(parse_size("5 kb"), Ok(5 * 1024));
    assert_eq!(parse_size("+7"), Ok(7));
    assert_eq!(parse_size(""), Err(SizeError::Empty));
    assert_eq!(parse_size("abc"), Err(SizeError::Invalid));
    assert_eq!(parse_size("10XB"), Err(SizeError::Invalid));
    assert_eq!(parse_size("-5"), Err(SizeError::Invalid));
    assert_eq!(parse_size("99999999999999999999"), Err(SizeError::Invalid));
    assert_eq!(parse_size("18446744073709551615GB"), Err(SizeError::TooLarge));
    assert_eq!(parse_size("18446744073709551615"), Ok(u64::MAX));
}

#[test]
fn parse_mode_ignores_case() {
    assert_eq!(parse_mode("safe"), Some(Mode::Safe));
    assert_eq!(parse_mode("SAFE"), Some(Mode::Safe));
    assert_eq!(parse_mode("Diagram"), Some(Mode::Diagram));
    assert_eq!(parse_mode("check"), Some(Mode::Check));
    assert_eq!(parse_mode("tables"), None);
    assert_eq!(effective_mode(true, Mode::Safe), Mode::Diagram);
    assert_eq!(effective_mode(false, Mode::Safe), Mode::Safe);
    assert!(effective_fences(true, false));
    assert!(!effective_fences(false, false));
}

#[test]
fn extensions_normalized_and_deduplicated() {
    let exts = vec![" MD ".to_string(), ".md".to_string(), "Txt.".to_string(), "x..".to_string(), ".".to_string()];
    assert_eq!(normalize_exts(&exts), vec![".md", ".txt", ".x", "."]);
}

#[test]
fn ext_values_replace_defaults_once() {
    let mut exts = default_extensions();
    assert_eq!(exts, vec![".md", ".mdx", ".txt"]);
    add_ext_value(&mut exts, "rs, py");
    assert_eq!(exts, vec!["rs", "py"]);
    add_ext_value(&mut exts, "toml,");
    assert_eq!(exts, vec!["rs", "py", "toml", ""]);
}

#[test]
fn argument_rules() {
    assert_eq!(validate_args(0, false, false), Err(ArgsError::MissingPaths));
    assert_eq!(validate_args(0, true, true), Err(ArgsError::MissingPaths));
    assert_eq!(validate_args(1, true, true), Err(ArgsError::CheckWithInPlace));
    assert_eq!(validate_args(2, true, false), Ok(()));
}

#[test]
fn file_actions_by_flags() {
    let plain = OutputFlags { check: false, in_place: false, diff: false, json: false, list_files: false };
    assert_eq!(file_action(&plain, true), FileAction::PrintProcessed);
    assert_eq!(file_action(&plain, false), FileAction::PrintProcessed);
    let diff = OutputFlags { diff: true, ..plain };
    assert_eq!(file_action(&diff, true), FileAction::PrintDiff);
    assert_eq!(file_action(&diff, false), FileAction::PrintProcessed);
    let check = OutputFlags { check: true, ..plain };
    assert_eq!(file_action(&check, true), FileAction::ReportNeedsFixing);
    assert_eq!(file_action(&check, false), FileAction::Nothing);
    let check_json = OutputFlags { check: true, json: true, ..plain };
    assert_eq!(file_action(&check_json, true), FileAction::Nothing);
    let in_place = OutputFlags { in_place: true, ..plain };
    assert_eq!(file_action(&in_place, true), FileAction::Write);
    assert_eq!(file_action(&in_place, false), FileAction::Nothing);
    let list = OutputFlags { list_files: true, ..plain };
    assert_eq!(file_action(&list, true), FileAction::Nothing);
}

#[test]
fn size_limit_and_exit_codes() {
    assert!(exceeds_max_size(11, Some(10)));
    assert!(!exceeds_max_size(10, Some(10)));
    assert!(!exceeds_max_size(u64::MAX, None));
    assert_eq!(exit_code(0, false, true), 0);
    assert_eq!(exit_code(0, true, true), 1);
    assert_eq!(exit_code(1, false, false), 1);
    assert_eq!(exit_code(0, true, false), 0);
}

#[test]
fn stats_counters() {
    let mut stats = ProcessingStats::new();
    stats.record_skipped();
    assert_eq!(stats.total_files, 0);
    assert_eq!(stats.skipped_files, 1);
    stats.record_modified();
    stats.record_error();
    let out = StatsOutput::from_stats(&stats);
    assert_eq!(out.total, 2);
    assert_eq!(out.modified, 1);
    assert_eq!(out.errors, 1);
    assert_eq!(out.skipped, 1);
    assert_eq!(out.unchanged, 0);
    let skipped = FileResult::Skipped { file: "a.md".to_string(), reason: "too big".to_string() };
    assert_eq!(skipped.file_path(), "a.md");
    assert!(!skipped.is_modified());
    assert!(!skipped.is_error());
    let err = FileResult::Error { file: "b.md".to_string(), error: "x".to_string() };
    assert!(err.is_error());
}

#[test]
fn discovery_rules() {
    let d = FileDiscovery::new(vec![".md".to_string(), ".txt".to_string()]);
    assert!(d.matches_extension(Some("md")));
    assert!(d.matches_extension(Some(".txt")));
    assert!(!d.matches_extension(Some("rs")));
    assert!(!d.matches_extension(None));
    assert!(is_skipped_name(".git"));
    assert!(is_skipped_name(".hidden"));
    assert!(is_skipped_name("target"));
    assert!(is_skipped_name("node_modules"));
    assert!(!is_skipped_name("docs"));
    assert!(!is_skipped_name("targets"));
}

#[test]
fn ordered_marker_beyond_i32_is_not_ordered() {
    let lists = detect_lists("99999999999. big\n1. small");
    assert_eq!(lists.len(), 1);
    assert!(!lists[0].is_ordered);
    let lists = detect_lists("2147483647. max");
    assert!(lists[0].is_ordered);
    assert_eq!(lists[0].items[0].marker, "2147483647");
}

#[test]
fn list_normalization_forms() {
    assert_eq!(normalize_list_indentation("- Item\n    - Sub"), "- Item\n  - Sub");
    assert_eq!(normalize_list_indentation("1. First"), "1. First");
    assert_eq!(normalize_list_indentation("- [x] Done"), "- [x] Done");
    assert_eq!(normalize_list_indentation("1. First\n- [ ] Todo"), "1. First\n- [ ] Todo");
    assert_eq!(normalize_list_indentation("* a\n      + b"), "* a\n  + b");
    assert_eq!(normalize_lists("* a\n    + b\n- [ ] c\n1. d"), "- a\n  - b\n- [ ] c\n1. d");
    assert_eq!(normalize_lists("```\n* code\n```"), "```\n* code\n```");
    assert_eq!(normalize_lists(""), "");
}

#[test]
fn list_normalization_idempotent() {
    for text in [
        "* a\n      + b\n   * c\n- [ ] d\n\n  1. e\n     2) f",
        "text\n   - x\n```\n * in code\n```\n+ y",
        "- a\n\t- b\n        - c",
    ] {
        let once = normalize_lists(text);
        assert_eq!(normalize_lists(&once), once);
    }
    assert_eq!(normalize_lists("   - x\n      - y"), "- x\n  - y");
}

#[test]
fn widening_boxes_never_narrows() {
    let mut inventory = PrimitiveInventory::default();
    inventory.boxes.push(boxed((0, 0), (2, 3)));
    inventory.boxes.push(boxed((0, 10), (2, 30)));
    inventory.text_rows.push(TextRow { row: 1, start_col: 1, end_col: 2, content: "Long text".to_string() });
    let out = normalize_box_widths(&inventory);
    assert_eq!(out.boxes[0].top_left, (0, 0));
    assert!(out.boxes[0].bottom_right.1 > 3);
    assert_eq!(out.boxes[1].bottom_right, (2, 30));
}

#[test]
fn balancing_and_nesting_only_grow() {
    let mut inventory = PrimitiveInventory::default();
    inventory.boxes.push(boxed((0, 0), (3, 4)));
    inventory.boxes.push(boxed((1, 5), (4, 15)));
    let out = balance_horizontal_boxes(&inventory);
    assert_eq!(out.boxes[0].top_left, (0, 0));
    assert_eq!(out.boxes[0].bottom_right, (3, 10));
    assert_eq!(out.boxes[1].bottom_right, (4, 15));
    let mut nested = PrimitiveInventory::default();
    let mut parent = boxed((0, 0), (3, 3));
    parent.child_indices = vec![1];
    nested.boxes.push(parent);
    nested.boxes.push(boxed((1, 1), (5, 6)));
    let out = normalize_nested_boxes(&nested);
    assert_eq!(out.boxes[0].top_left, (0, 0));
    assert_eq!(out.boxes[0].bottom_right, (6, 7));
    assert_eq!(out.boxes[1].bottom_right, (5, 6));
}

#[test]
fn needs_fixing_iff_texts_differ() {
    assert!(!content_needs_fixing("", ""));
    assert!(content_needs_fixing("a", "a\n"));
    assert!(content_needs_fixing("ab", "ba"));
}

#[test]
fn check_mode_is_diagram_mode() {
    let content = "┌───┐\n│ Hi │\n└───┘\n\ntext";
    let config = Config::default();
    assert_eq!(process_check_mode(content), process_diagram_mode(content, &config));
    assert_eq!(
        process_by_mode(&Mode::Check, content, false, &config),
        process_by_mode(&Mode::Diagram, content, false, &config)
    );
}

#[test]
fn diagram_mode_simple_box_is_stable() {
    let content = "Intro\n\n┌─────┐\n│ Box │\n└─────┘\n\nOutro";
    let config = Config::default();
    let first = process_diagram_mode(content, &config);
    let second = process_diagram_mode(&first, &config);
    assert_eq!(first.trim(), second.trim());
    assert!(first.contains("Box"));
    assert!(first.contains('┌'));
    assert!(first.starts_with("Intro\n\n"));
    assert!(first.ends_with("\n\nOutro"));
}

#[test]
fn diagram_mode_without_blocks_returns_text_as_is() {
    let config = Config::default();
    assert_eq!(process_diagram_mode("", &config), "");
    assert_eq!(process_diagram_mode("\n\n", &config), "\n\n");
    assert_eq!(process_diagram_mode("plain words\n", &config), "plain words\n");
}

#[test]
fn safe_mode_table_and_list() {
    let content = "- a\n* b\n\n| x | yy |\n|---|---|\n| 1 | 2 |";
    let out = process_safe_mode(content);
    assert!(out.starts_with("- a\n- b\n\n"));
    assert!(out.contains("| x"));
    assert!(out.contains("| 1"));
    let again = process_safe_mode(&out);
    assert_eq!(again, out);
}

