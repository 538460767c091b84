use ascfix::detector::{detect_all_primitives, detect_boxes, detect_horizontal_arrows, detect_vertical_arrows, extract_box_content};
use ascfix::grid::Grid;
use ascfix::primitives::{Box, BoxStyle};

#[test]
fn test_detect_simple_box() {
    let lines = vec!["┌─┐", "│ │", "└─┘"];
    let grid = Grid::from_lines(&lines);
    let boxes = detect_boxes(&grid);
    assert_eq!(boxes.len(), 1);
    assert_eq!(boxes[0].top_left, (0, 0));
    assert_eq!(boxes[0].bottom_right, (2, 2));
}

#[test]
fn test_detect_larger_box() {
    let lines = vec!["┌─────┐", "│ A   │", "│ B   │", "└─────┘"];
    let grid = Grid::from_lines(&lines);
    let boxes = detect_boxes(&grid);
    assert_eq!(boxes.len(), 1);
    assert_eq!(boxes[0].width(), 7);
    assert_eq!(boxes[0].height(), 4);
}

#[test]
fn test_no_boxes() {
    let lines = vec!["Line 1", "Line 2"];
    let grid = Grid::from_lines(&lines);
    let boxes = detect_boxes(&grid);
    assert_eq!(boxes.len(), 0);
}

#[test]
fn test_multiple_boxes() {
    let lines = vec!["┌─┐   ┌─┐", "│a│   │b│", "└─┘   └─┘"];
    let grid = Grid::from_lines(&lines);
    let boxes = detect_boxes(&grid);
    assert_eq!(boxes.len(), 2);
}

#[test]
fn test_box_with_extended_borders() {
    let lines = vec!["┌──────┐", "│      │", "└──────┘"];
    let grid = Grid::from_lines(&lines);
    let boxes = detect_boxes(&grid);
    assert_eq!(boxes.len(), 1);
    assert_eq!(boxes[0].top_left, (0, 0));
    assert_eq!(boxes[0].bottom_right, (2, 7));
}

#[test]
fn test_box_with_t_junctions() {
    let lines = vec!["┌──┬──┐", "│  │  │", "└──┴──┘"];
    let grid = Grid::from_lines(&lines);
    let boxes = detect_boxes(&grid);
    // May detect one large box or multiple - depending on implementation
    // For now, we expect at least one box
    assert!(!boxes.is_empty());
}

#[test]
fn test_extract_empty_box() {
    let lines = vec!["┌─┐", "│ │", "└─┘"];
    let grid = Grid::from_lines(&lines);
    let b = Box {
        top_left: (0, 0),
        bottom_right: (2, 2),
        style: BoxStyle::Single,
        parent_idx: None,
        child_indices: Vec::new(),
    };
    let content = extract_box_content(&grid, &b);
    assert_eq!(content.len(), 1);
    assert_eq!(content[0], " ");
}

#[test]
fn test_extract_box_with_text() {
    let lines = vec!["┌─────┐", "│ Box │", "└─────┘"];
    let grid = Grid::from_lines(&lines);
    let b = Box {
        top_left: (0, 0),
        bottom_right: (2, 6),
        style: BoxStyle::Single,
        parent_idx: None,
        child_indices: Vec::new(),
    };
    let content = extract_box_content(&grid, &b);
    assert_eq!(content.len(), 1);
    assert_eq!(content[0].trim(), "Box");
}

#[test]
fn test_extract_multiline_box() {
    let lines = vec!["┌──────┐", "│Line1 │", "│Line2 │", "│Line3 │", "└──────┘"];
    let grid = Grid::from_lines(&lines);
    let b = Box {
        top_left: (0, 0),
        bottom_right: (4, 7),
        style: BoxStyle::Single,
        parent_idx: None,
        child_indices: Vec::new(),
    };
    let content = extract_box_content(&grid, &b);
    assert_eq!(content.len(), 3);
    assert_eq!(content[0].trim(), "Line1");
    assert_eq!(content[1].trim(), "Line2");
    assert_eq!(content[2].trim(), "Line3");
}

#[test]
fn test_extract_preserves_spacing() {
    let lines = vec!["┌────────┐", "│ Text   │", "└────────┘"];
    let grid = Grid::from_lines(&lines);
    let b = Box {
        top_left: (0, 0),
        bottom_right: (2, 9),
        style: BoxStyle::Single,
        parent_idx: None,
        child_indices: Vec::new(),
    };
    let content = extract_box_content(&grid, &b);
    assert_eq!(content[0], " Text   ");
}

#[test]
fn test_detect_simple_arrow() {
    let lines = vec!["→"];
    let grid = Grid::from_lines(&lines);
    let arrows = detect_horizontal_arrows(&grid);
    assert_eq!(arrows.len(), 1);
    assert_eq!(arrows[0].row, 0);
    assert_eq!(arrows[0].start_col, 0);
    assert_eq!(arrows[0].end_col, 0);
}

#[test]
fn test_detect_dashes() {
    // Plain dashes without arrow tips are not detected as arrows
    let lines = vec!["────"];
    let grid = Grid::from_lines(&lines);
    let arrows = detect_horizontal_arrows(&grid);
    assert_eq!(arrows.len(), 0);
}

#[test]
fn test_detect_arrow_with_dashes() {
    let lines = vec!["──→──"];
    let grid = Grid::from_lines(&lines);
    let arrows = detect_horizontal_arrows(&grid);
    assert_eq!(arrows.len(), 1);
    assert_eq!(arrows[0].start_col, 0);
    assert_eq!(arrows[0].end_col, 4);
}

#[test]
fn test_detect_multiple_arrows() {
    let lines = vec!["→    ←"];
    let grid = Grid::from_lines(&lines);
    let arrows = detect_horizontal_arrows(&grid);
    assert_eq!(arrows.len(), 2);
}

#[test]
fn test_no_arrows() {
    let lines = vec!["normal text"];
    let grid = Grid::from_lines(&lines);
    let arrows = detect_horizontal_arrows(&grid);
    assert_eq!(arrows.len(), 0);
}

#[test]
fn test_arrows_in_different_rows() {
    let lines = vec!["→  ", "   ", "←  "];
    let grid = Grid::from_lines(&lines);
    let arrows = detect_horizontal_arrows(&grid);
    assert_eq!(arrows.len(), 2);
    assert_eq!(arrows[0].row, 0);
    assert_eq!(arrows[1].row, 2);
}

#[test]
fn test_detect_simple_vertical_arrow() {
    let lines = vec!["↓"];
    let grid = Grid::from_lines(&lines);
    let arrows = detect_vertical_arrows(&grid);
    assert_eq!(arrows.len(), 1);
    assert_eq!(arrows[0].col, 0);
    assert_eq!(arrows[0].start_row, 0);
    assert_eq!(arrows[0].end_row, 0);
}

#[test]
fn test_detect_vertical_pipes() {
    let lines = vec!["│", "│", "│", "│"];
    let grid = Grid::from_lines(&lines);
    let arrows = detect_vertical_arrows(&grid);
    assert_eq!(arrows.len(), 1);
    assert_eq!(arrows[0].col, 0);
    assert_eq!(arrows[0].start_row, 0);
    assert_eq!(arrows[0].end_row, 3);
}

#[test]
fn test_detect_arrow_with_pipes() {
    let lines = vec!["│", "│", "↓", "│", "│"];
    let grid = Grid::from_lines(&lines);
    let arrows = detect_vertical_arrows(&grid);
    assert_eq!(arrows.len(), 1);
    assert_eq!(arrows[0].start_row, 0);
    assert_eq!(arrows[0].end_row, 4);
}

#[test]
fn test_detect_multiple_vertical_arrows() {
    let lines = vec!["↓ ↑"];
    let grid = Grid::from_lines(&lines);
    let arrows = detect_vertical_arrows(&grid);
    assert_eq!(arrows.len(), 2);
    assert_eq!(arrows[0].col, 0);
    assert_eq!(arrows[1].col, 2);
}

#[test]
fn test_no_vertical_arrows() {
    let lines = vec!["a b c"];
    let grid = Grid::from_lines(&lines);
    let arrows = detect_vertical_arrows(&grid);
    assert_eq!(arrows.len(), 0);
}

#[test]
fn test_vertical_arrows_in_different_cols() {
    let lines = vec!["↓     ↑", "│     │", "│     │"];
    let grid = Grid::from_lines(&lines);
    let arrows = detect_vertical_arrows(&grid);
    assert_eq!(arrows.len(), 2);
    assert_eq!(arrows[0].col, 0);
    assert_eq!(arrows[1].col, 6);
}

#[test]
fn test_detect_thick_vertical_pipes() {
    let lines = vec!["┃", "┃", "┃"];
    let grid = Grid::from_lines(&lines);
    let arrows = detect_vertical_arrows(&grid);
    assert_eq!(arrows.len(), 1);
    assert_eq!(arrows[0].start_row, 0);
    assert_eq!(arrows[0].end_row, 2);
}

#[test]
fn test_unified_detector_empty_grid() {
    let lines: Vec<&str> = vec![];
    let grid = Grid::from_lines(&lines);
    let inventory = detect_all_primitives(&grid);
    assert!(inventory.boxes.is_empty());
    assert!(inventory.horizontal_arrows.is_empty());
    assert!(inventory.vertical_arrows.is_empty());
}

#[test]
fn test_unified_detector_simple_box() {
    let lines = vec!["┌─┐", "│a│", "└─┘"];
    let grid = Grid::from_lines(&lines);
    let inventory = detect_all_primitives(&grid);
    assert_eq!(inventory.boxes.len(), 1);
    assert_eq!(inventory.text_rows.len(), 1);
    assert_eq!(inventory.horizontal_arrows.len(), 0);
    assert_eq!(inventory.vertical_arrows.len(), 0);
}

#[test]
fn test_unified_detector_box_with_arrows() {
    let lines = vec!["  ↓  ", "┌─┐", "│x│", "└─┘", "  ↓  "];
    let grid = Grid::from_lines(&lines);
    let inventory = detect_all_primitives(&grid);
    assert_eq!(inventory.boxes.len(), 1);
    // Two separate ↓ arrows (at row 0 and row 4)
    assert_eq!(inventory.vertical_arrows.len(), 2);
    assert_eq!(inventory.text_rows.len(), 1);
}

#[test]
fn test_unified_detector_multiple_boxes() {
    let lines = vec!["┌─┐ ┌─┐", "│a│ │b│", "└─┘ └─┘"];
    let grid = Grid::from_lines(&lines);
    let inventory = detect_all_primitives(&grid);
    assert_eq!(inventory.boxes.len(), 2);
    assert_eq!(inventory.text_rows.len(), 2);
}

#[test]
fn test_unified_detector_complex_diagram() {
    let lines = vec![
        "  Input  ",
        "    ↓    ",
        "┌───────┐",
        "│Process│",
        "└───────┘",
        "    ↓    ",
        "  Output ",
    ];
    let grid = Grid::from_lines(&lines);
    let inventory = detect_all_primitives(&grid);
    assert_eq!(inventory.boxes.len(), 1);
    // Two separate ↓ arrows (at row 1 and row 5)
    assert_eq!(inventory.vertical_arrows.len(), 2);
    assert_eq!(inventory.text_rows.len(), 1);
}

#[test]
fn test_unified_detector_text_extraction() {
    let lines = vec!["┌──────┐", "│Line1 │", "│Line2 │", "└──────┘"];
    let grid = Grid::from_lines(&lines);
    let inventory = detect_all_primitives(&grid);
    assert_eq!(inventory.text_rows.len(), 2);
    assert!(inventory.text_rows[0].content.contains("Line1"));
    assert!(inventory.text_rows[1].content.contains("Line2"));
}

#[test]
fn test_unified_detector_empty_box_no_text() {
    let lines = vec!["┌─┐", "│ │", "└─┘"];
    let grid = Grid::from_lines(&lines);
    let inventory = detect_all_primitives(&grid);
    assert_eq!(inventory.boxes.len(), 1);
    // Empty box produces no text rows (whitespace only)
    assert_eq!(inventory.text_rows.len(), 0);
}

#[test]
fn test_unified_detector_preserves_positions() {
    let lines = vec!["┌──┐", "│AB│", "└──┘"];
    let grid = Grid::from_lines(&lines);
    let inventory = detect_all_primitives(&grid);
    let text_row = &inventory.text_rows[0];
    assert_eq!(text_row.row, 1);
    assert_eq!(text_row.start_col, 1);
    assert_eq!(text_row.end_col, 2);
}
