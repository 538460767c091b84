use ascfix::detector::{detect_boxes, detect_horizontal_arrows, detect_labels, detect_vertical_arrows};
use ascfix::fences::{detect_fence_markers, normalize_fences, pair_fences};
use ascfix::grid::Grid;
use ascfix::links::detect_reference_links;
use ascfix::lists::normalize_list_indentation;
use ascfix::normalizer::{
    align_horizontal_arrows, align_vertical_arrows, balance_horizontal_boxes, normalize_box_widths,
    normalize_nested_boxes, normalize_padding,
};
use ascfix::output::{diff_lines, shown_diff_lines, DiffTag, FileEnd, FileOutcome, ProcessingStats};
use ascfix::primitives::{ArrowType, Box as DiagramBox, BoxStyle, HorizontalArrow, PrimitiveInventory, TextRow};
use ascfix::renderer::{render_diagram, render_onto_grid};
use ascfix::cli::{ext_from_lowercase_text, mode_from_lowercase, size_from_uppercase, Mode, SizeError};
use ascfix::modes::check::process_check_mode;

fn boxed(tl: (usize, usize), br: (usize, usize), style: BoxStyle, kids: Vec<usize>) -> DiagramBox {
    DiagramBox { top_left: tl, bottom_right: br, style, parent_idx: None, child_indices: kids }
}

#[test]
fn arrow_direction_follows_its_head() {
    let left = detect_horizontal_arrows(&Grid::from_lines(&["←──"]));
    assert_eq!(left.len(), 1);
    assert_eq!((left[0].start_col, left[0].end_col), (0, 2));
    assert!(!left[0].rightward);
    let right = detect_horizontal_arrows(&Grid::from_lines(&["──→"]));
    assert!(right[0].rightward);
}

#[test]
fn labels_must_be_within_two_cells() {
    let grid = Grid::from_lines(&["┌──┐", "│  │      far", "└──┘"]);
    let mut inventory = PrimitiveInventory::default();
    inventory.boxes.push(boxed((0, 0), (2, 3), BoxStyle::Single, vec![]));
    assert!(detect_labels(&grid, &inventory).is_empty());
    let grid = Grid::from_lines(&["┌──┐", "│  │ ok", "└──┘"]);
    let labels = detect_labels(&grid, &inventory);
    assert_eq!(labels.len(), 1);
    assert_eq!(labels[0].content, "ok");
}

#[test]
fn labels_equally_near_two_boxes_are_skipped() {
    let grid = Grid::from_lines(&["┌──┐   ┌──┐", "│  │ xy│  │", "└──┘   └──┘"]);
    let mut inventory = PrimitiveInventory::default();
    inventory.boxes.push(boxed((0, 0), (2, 3), BoxStyle::Single, vec![]));
    inventory.boxes.push(boxed((0, 7), (2, 10), BoxStyle::Single, vec![]));
    assert!(detect_labels(&grid, &inventory).is_empty());
    let mut one = PrimitiveInventory::default();
    one.boxes.push(boxed((0, 0), (2, 3), BoxStyle::Single, vec![]));
    assert_eq!(detect_labels(&grid, &one).len(), 1);
}

#[test]
fn boxes_widen_only_for_their_own_text() {
    let mut inventory = PrimitiveInventory::default();
    inventory.boxes.push(boxed((0, 0), (2, 3), BoxStyle::Single, vec![]));
    inventory.boxes.push(boxed((0, 5), (2, 8), BoxStyle::Single, vec![]));
    inventory.text_rows.push(TextRow { row: 1, start_col: 1, end_col: 2, content: " Short ".to_string() });
    inventory.text_rows.push(TextRow {
        row: 1,
        start_col: 6,
        end_col: 7,
        content: " Much Longer Text ".to_string(),
    });
    let r = normalize_box_widths(&inventory);
    assert!(r.boxes[0].width() >= 7 && r.boxes[0].width() <= 8);
    assert!(r.boxes[1].width() >= 18);
}

#[test]
fn nesting_grows_innermost_first_and_is_stable() {
    let mut inventory = PrimitiveInventory::default();
    inventory.boxes.push(boxed((0, 0), (10, 10), BoxStyle::Single, vec![1]));
    inventory.boxes.push(boxed((1, 1), (9, 9), BoxStyle::Single, vec![2]));
    inventory.boxes.push(boxed((2, 2), (8, 12), BoxStyle::Single, vec![]));
    let r = normalize_nested_boxes(&inventory);
    assert_eq!(r.boxes[2].bottom_right, (8, 12));
    assert_eq!((r.boxes[1].top_left, r.boxes[1].bottom_right), ((1, 1), (9, 13)));
    assert_eq!((r.boxes[0].top_left, r.boxes[0].bottom_right), ((0, 0), (10, 14)));
    let again = normalize_nested_boxes(&r);
    for k in 0..3 {
        assert_eq!(again.boxes[k].top_left, r.boxes[k].top_left);
        assert_eq!(again.boxes[k].bottom_right, r.boxes[k].bottom_right);
    }
}

#[test]
fn nesting_four_deep_is_left_alone_at_the_top() {
    let mut inventory = PrimitiveInventory::default();
    inventory.boxes.push(boxed((0, 0), (10, 10), BoxStyle::Single, vec![1]));
    inventory.boxes.push(boxed((1, 1), (9, 9), BoxStyle::Single, vec![2]));
    inventory.boxes.push(boxed((2, 2), (8, 8), BoxStyle::Single, vec![3]));
    inventory.boxes.push(boxed((3, 3), (4, 20), BoxStyle::Single, vec![]));
    let r = normalize_nested_boxes(&inventory);
    assert_eq!(r.boxes[2].bottom_right, (8, 21));
    assert_eq!(r.boxes[1].bottom_right, (9, 22));
    assert_eq!(r.boxes[0].bottom_right, (10, 10));
}

#[test]
fn parents_hold_children_through_the_pipeline() {
    let mut inventory = PrimitiveInventory::default();
    inventory.boxes.push(boxed((0, 0), (4, 15), BoxStyle::Single, vec![1, 2]));
    inventory.boxes.push(boxed((2, 2), (4, 10), BoxStyle::Single, vec![]));
    inventory.boxes.push(boxed((2, 12), (4, 20), BoxStyle::Single, vec![]));
    let n = normalize_box_widths(&inventory);
    let n = normalize_nested_boxes(&n);
    assert!(n.boxes[0].width() >= 22);
    assert_eq!(n.boxes[0].bottom_right, (5, 21));

    let mut inventory = PrimitiveInventory::default();
    inventory.boxes.push(boxed((0, 0), (10, 25), BoxStyle::Single, vec![1]));
    inventory.boxes.push(boxed((2, 2), (8, 23), BoxStyle::Double, vec![2]));
    inventory.boxes.push(boxed((4, 5), (6, 15), BoxStyle::Rounded, vec![]));
    let n = normalize_box_widths(&inventory);
    let n = normalize_nested_boxes(&n);
    let n = align_horizontal_arrows(&n);
    let n = align_vertical_arrows(&n);
    let n = balance_horizontal_boxes(&n);
    let n = normalize_padding(&n);
    let g = render_diagram(&n);
    assert_eq!(g.get(0, 0), Some('┌'));
    assert_eq!(g.get(2, 2), Some('╔'));
    assert_eq!(g.get(4, 5), Some('╭'));
}

#[test]
fn fences_stand_alone_and_unclosed_ones_get_a_closing_fence() {
    assert!(detect_fence_markers("see ```x").is_empty());
    assert_eq!(detect_fence_markers("  ```rust").len(), 1);
    let once = normalize_fences("```python\ncode");
    assert_eq!(once, "```python\ncode\n```");
    assert_eq!(normalize_fences(&once), once);
    assert_eq!(normalize_fences("~~~~\nx"), "~~~~\nx\n~~~~");
    // Two blocks side by side are no duplicate: the second has a language.
    assert_eq!(normalize_fences("```\na\n```\n```rust\nb\n```"), "```\na\n```\n```rust\nb\n```");
    assert_eq!(normalize_fences("```\na\n```\n```\n```"), "```\na\n```");
}

#[test]
fn list_indentation_keeps_item_text() {
    assert_eq!(normalize_list_indentation("1. First\n- [ ] Todo"), "1. First\n- [ ] Todo");
    assert_eq!(normalize_list_indentation("- a\n     1) b"), "- a\n  1) b");
}

#[test]
fn outcomes_raise_their_counters() {
    let mut s = ProcessingStats::new();
    s.record_outcome(FileOutcome::Processed { needs_fixing: true });
    s.record_outcome(FileOutcome::Processed { needs_fixing: false });
    s.record_outcome(FileOutcome::Skipped);
    s.record_outcome(FileOutcome::ReadFailed);
    s.record_outcome(FileOutcome::WriteFailed);
    assert_eq!(
        (s.total_files, s.modified_files, s.unchanged_files, s.error_files, s.skipped_files),
        (4, 1, 1, 2, 1)
    );
    assert!(s.has_room_for(FileOutcome::Skipped));
    s.skipped_files = usize::MAX;
    assert!(!s.has_room_for(FileOutcome::Skipped));
    assert!(s.has_room_for(FileOutcome::ReadFailed));
}

#[test]
fn reference_labels_are_read_in_characters() {
    let refs = detect_reference_links("[日本]: http://x \"T\"\na]: [\n[a\\]b]: u");
    assert_eq!(refs.len(), 2);
    assert_eq!(refs[0].label, "日本");
    assert_eq!(refs[0].url, "http://x");
    assert_eq!(refs[0].title.as_deref(), Some("T"));
    assert_eq!(refs[1].label, "a\\]b");
    assert_eq!(refs[1].url, "u");
}

#[test]
fn vertical_arrows_are_whole_runs() {
    let grid = Grid::from_lines(&["│", "│", "↓", " ", "↑", " ", "│"]);
    let arrows = detect_vertical_arrows(&grid);
    assert_eq!(arrows.len(), 2);
    assert_eq!((arrows[0].col, arrows[0].start_row, arrows[0].end_row), (0, 0, 2));
    assert_eq!((arrows[1].start_row, arrows[1].end_row), (4, 4));
    assert!(!arrows[1].downward);
    let piped = detect_vertical_arrows(&Grid::from_lines(&["│", "│", "↓", "│", "│"]));
    assert_eq!(piped.len(), 1);
    assert_eq!((piped[0].col, piped[0].start_row, piped[0].end_row), (0, 0, 4));
}

#[test]
fn arrows_at_one_place_keep_their_order() {
    let arrow = |row: usize, start_col: usize, end_col: usize| HorizontalArrow {
        row,
        start_col,
        end_col,
        arrow_type: ArrowType::Standard,
        rightward: true,
        arrow_char: None,
    };
    let mut inventory = PrimitiveInventory::default();
    inventory.horizontal_arrows.push(arrow(3, 1, 9));
    inventory.horizontal_arrows.push(arrow(1, 0, 4));
    inventory.horizontal_arrows.push(arrow(3, 1, 5));
    let r = align_horizontal_arrows(&inventory);
    let ends: Vec<(usize, usize)> = r.horizontal_arrows.iter().map(|a| (a.row, a.end_col)).collect();
    assert_eq!(ends, vec![(1, 4), (3, 9), (3, 5)]);
}

#[test]
fn detected_boxes_start_at_their_corners() {
    let grid = Grid::from_lines(&["╔══╗", "║  ║", "╚══╝"]);
    let boxes = detect_boxes(&grid);
    assert_eq!(boxes.len(), 1);
    assert_eq!((boxes[0].top_left, boxes[0].bottom_right), ((0, 0), (2, 3)));
    assert_eq!(boxes[0].style, BoxStyle::Double);
}

#[test]
fn every_fence_lands_in_one_block() {
    let blocks = pair_fences(detect_fence_markers("```\n```\n```"));
    assert_eq!(blocks.len(), 2);
    assert_eq!(blocks[0].opening.line_num, 0);
    assert_eq!(blocks[0].closing.as_ref().map(|c| c.line_num), Some(1));
    assert_eq!(blocks[1].opening.line_num, 2);
    assert!(blocks[1].closing.is_none());
}

#[test]
fn adjacent_fenced_blocks_stay_as_they_are() {
    let text = "```\na\n```\n```\nb\n```";
    assert_eq!(normalize_fences(text), text);
    assert_eq!(normalize_fences("```\na\n```\n```"), "```\na\n```");
}

#[test]
fn uncovered_content_passes_through_the_renderer() {
    let grid = Grid::from_lines(&["a→b", "c"]);
    let empty = PrimitiveInventory::default();
    assert_eq!(render_onto_grid(&grid, &empty, &empty).render(), "a→b\nc  ");
}

#[test]
fn check_mode_leaves_text_without_diagrams_alone() {
    assert_eq!(process_check_mode("# Title\n"), "# Title\n");
    assert_eq!(process_check_mode("intro\n│ x\nend\n"), "intro\n│ x\nend\n");
}

#[test]
fn line_diff_spells_both_texts() {
    let d = diff_lines("a\nb\n", "a\nc\n");
    let tags: Vec<DiffTag> = d.iter().map(|p| p.0).collect();
    assert_eq!(tags, vec![DiffTag::Equal, DiffTag::Delete, DiffTag::Insert]);
    assert_eq!(d[1].1, "b\n");
    let old: String = d.iter().filter(|p| p.0 != DiffTag::Insert).map(|p| p.1.clone()).collect();
    assert_eq!(old, "a\nb\n");
    let shown = shown_diff_lines(&diff_lines("x", "y"));
    assert_eq!(shown.len(), 2);
    assert_eq!(shown[0].1, "x\n");
    assert_eq!(shown[1].1, "y\n");
}

#[test]
fn a_failed_write_counts_twice() {
    let mut s = ProcessingStats::new();
    assert!(s.has_room_for_file(FileEnd::WriteFailed { needs_fixing: true }));
    s.record_file(FileEnd::WriteFailed { needs_fixing: true });
    s.record_file(FileEnd::Done { needs_fixing: false });
    assert_eq!((s.total_files, s.modified_files, s.unchanged_files, s.error_files), (3, 1, 1, 1));
}

#[test]
fn case_folded_settings() {
    assert_eq!(mode_from_lowercase("diagram"), Some(Mode::Diagram));
    assert_eq!(mode_from_lowercase("Diagram"), None);
    assert_eq!(size_from_uppercase("2MB"), Ok(2 * 1024 * 1024));
    assert_eq!(size_from_uppercase("X"), Err(SizeError::Invalid));
    assert_eq!(ext_from_lowercase_text("MD..", "md.."), ".md");
    assert_eq!(ext_from_lowercase_text(".Rs", ".rs"), ".rs");
}
