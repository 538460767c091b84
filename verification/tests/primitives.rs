use ascfix::primitives::{
    is_box_char, is_box_corner, is_double_line_corner, is_rounded_corner, is_vertical_arrow_char, ArrowType, Box,
    BoxStyle, ConnectionLine, HorizontalArrow, Segment, TextRow, VerticalArrow,
};

#[test]
fn test_box_dimensions() {
    let b = Box {
        top_left: (0, 0),
        bottom_right: (3, 5),
        style: BoxStyle::Single,
        parent_idx: None,
        child_indices: Vec::new(),
    };
    assert_eq!(b.width(), 6);
    assert_eq!(b.height(), 4);
}

#[test]
fn test_box_contains_interior() {
    let b = Box {
        top_left: (0, 0),
        bottom_right: (3, 5),
        style: BoxStyle::Single,
        parent_idx: None,
        child_indices: Vec::new(),
    };
    assert!(b.contains_interior(1, 1));
    assert!(b.contains_interior(2, 3));
    assert!(!b.contains_interior(0, 1)); // Top edge
    assert!(!b.contains_interior(3, 1)); // Bottom edge
    assert!(!b.contains_interior(1, 0)); // Left edge
}

#[test]
fn test_box_contains_border() {
    let b = Box {
        top_left: (0, 0),
        bottom_right: (3, 5),
        style: BoxStyle::Single,
        parent_idx: None,
        child_indices: Vec::new(),
    };
    assert!(b.contains_border(0, 0)); // Top-left
    assert!(b.contains_border(0, 3)); // Top
    assert!(b.contains_border(3, 5)); // Bottom-right
    assert!(!b.contains_border(1, 1)); // Interior
}

#[test]
fn test_horizontal_arrow() {
    let arr = HorizontalArrow {
        row: 5,
        start_col: 2,
        end_col: 8,
        arrow_type: ArrowType::Standard,
        rightward: true,
        arrow_char: None,
    };
    assert_eq!(arr.row, 5);
    assert_eq!(arr.start_col, 2);
}

#[test]
fn test_vertical_arrow() {
    let arr = VerticalArrow {
        col: 3,
        start_row: 1,
        end_row: 6,
        arrow_type: ArrowType::Standard,
        downward: true,
        arrow_char: None,
    };
    assert_eq!(arr.col, 3);
    assert_eq!(arr.start_row, 1);
}

#[test]
fn test_text_row() {
    let tr = TextRow {
        row: 2,
        start_col: 5,
        end_col: 10,
        content: "Hello".to_string(),
    };
    assert_eq!(tr.content, "Hello");
}

#[test]
fn test_is_box_char() {
    assert!(is_box_char('─'));
    assert!(is_box_char('│'));
    assert!(is_box_char('┌'));
    assert!(!is_box_char('a'));
    assert!(!is_box_char(' '));
}

#[test]
fn test_is_box_corner() {
    assert!(is_box_corner('┌'));
    assert!(is_box_corner('┐'));
    assert!(is_box_corner('└'));
    assert!(is_box_corner('┘'));
    assert!(!is_box_corner('─'));
    assert!(!is_box_corner('│'));
}

#[test]
fn test_box_style_single_chars() {
    let chars = BoxStyle::Single.chars();
    // Single line: horizontal, vertical, top_left, top_right, bottom_left, bottom_right
    assert_eq!(chars.horizontal, '─');
    assert_eq!(chars.vertical, '│');
    assert_eq!(chars.top_left, '┌');
    assert_eq!(chars.top_right, '┐');
    assert_eq!(chars.bottom_left, '└');
    assert_eq!(chars.bottom_right, '┘');
}

#[test]
fn test_box_style_double_chars() {
    let chars = BoxStyle::Double.chars();
    // Double line: horizontal, vertical, top_left, top_right, bottom_left, bottom_right
    assert_eq!(chars.horizontal, '═');
    assert_eq!(chars.vertical, '║');
    assert_eq!(chars.top_left, '╔');
    assert_eq!(chars.top_right, '╗');
    assert_eq!(chars.bottom_left, '╚');
    assert_eq!(chars.bottom_right, '╝');
}

#[test]
fn test_box_style_rounded_chars() {
    let chars = BoxStyle::Rounded.chars();
    // Rounded: horizontal, vertical, top_left, top_right, bottom_left, bottom_right
    assert_eq!(chars.horizontal, '─');
    assert_eq!(chars.vertical, '│');
    assert_eq!(chars.top_left, '╭');
    assert_eq!(chars.top_right, '╮');
    assert_eq!(chars.bottom_left, '╰');
    assert_eq!(chars.bottom_right, '╯');
}

#[test]
fn test_is_box_char_double_line() {
    // Double-line characters should be recognized
    assert!(is_box_char('═'));
    assert!(is_box_char('║'));
    assert!(is_box_char('╔'));
    assert!(is_box_char('╗'));
    assert!(is_box_char('╚'));
    assert!(is_box_char('╝'));
}

#[test]
fn test_is_box_char_rounded() {
    // Rounded characters should be recognized
    assert!(is_box_char('╭'));
    assert!(is_box_char('╮'));
    assert!(is_box_char('╰'));
    assert!(is_box_char('╯'));
}

#[test]
fn test_is_box_corner_all_styles() {
    // Single line corners
    assert!(is_box_corner('┌'));
    assert!(is_box_corner('┐'));
    assert!(is_box_corner('└'));
    assert!(is_box_corner('┘'));
    // Double line corners
    assert!(is_box_corner('╔'));
    assert!(is_box_corner('╗'));
    assert!(is_box_corner('╚'));
    assert!(is_box_corner('╝'));
    // Rounded corners
    assert!(is_box_corner('╭'));
    assert!(is_box_corner('╮'));
    assert!(is_box_corner('╰'));
    assert!(is_box_corner('╯'));
}

#[test]
fn test_is_double_line_corner() {
    assert!(is_double_line_corner('╔'));
    assert!(is_double_line_corner('╗'));
    assert!(is_double_line_corner('╚'));
    assert!(is_double_line_corner('╝'));
    assert!(!is_double_line_corner('┌'));
    assert!(!is_double_line_corner('╭'));
}

#[test]
fn test_is_rounded_corner() {
    assert!(is_rounded_corner('╭'));
    assert!(is_rounded_corner('╮'));
    assert!(is_rounded_corner('╰'));
    assert!(is_rounded_corner('╯'));
    assert!(!is_rounded_corner('┌'));
    assert!(!is_rounded_corner('╔'));
}

#[test]
fn test_box_style_from_single_corner() {
    assert_eq!(BoxStyle::from_corner('┌'), Some(BoxStyle::Single));
    assert_eq!(BoxStyle::from_corner('┐'), Some(BoxStyle::Single));
    assert_eq!(BoxStyle::from_corner('└'), Some(BoxStyle::Single));
    assert_eq!(BoxStyle::from_corner('┘'), Some(BoxStyle::Single));
}

#[test]
fn test_box_style_from_double_corner() {
    assert_eq!(BoxStyle::from_corner('╔'), Some(BoxStyle::Double));
    assert_eq!(BoxStyle::from_corner('╗'), Some(BoxStyle::Double));
    assert_eq!(BoxStyle::from_corner('╚'), Some(BoxStyle::Double));
    assert_eq!(BoxStyle::from_corner('╝'), Some(BoxStyle::Double));
}

#[test]
fn test_box_style_from_rounded_corner() {
    assert_eq!(BoxStyle::from_corner('╭'), Some(BoxStyle::Rounded));
    assert_eq!(BoxStyle::from_corner('╮'), Some(BoxStyle::Rounded));
    assert_eq!(BoxStyle::from_corner('╰'), Some(BoxStyle::Rounded));
    assert_eq!(BoxStyle::from_corner('╯'), Some(BoxStyle::Rounded));
}

#[test]
fn test_box_style_from_non_corner() {
    assert_eq!(BoxStyle::from_corner('─'), None);
    assert_eq!(BoxStyle::from_corner('│'), None);
    assert_eq!(BoxStyle::from_corner('a'), None);
}

#[test]
fn test_box_has_style_field() {
    let b = Box {
        top_left: (0, 0),
        bottom_right: (3, 5),
        style: BoxStyle::Single,
        parent_idx: None,
        child_indices: Vec::new(),
    };
    assert_eq!(b.style, BoxStyle::Single);
}

#[test]
fn test_box_style_preserved() {
    let b = Box {
        top_left: (1, 2),
        bottom_right: (5, 8),
        style: BoxStyle::Double,
        parent_idx: None,
        child_indices: Vec::new(),
    };
    assert_eq!(b.style, BoxStyle::Double);
}

#[test]
fn test_arrow_type_standard_chars() {
    let chars = ArrowType::Standard.chars();
    assert_eq!(chars.line, '─');
    assert_eq!(chars.arrowhead_right, '→');
    assert_eq!(chars.arrowhead_left, '←');
}

#[test]
fn test_arrow_type_double_chars() {
    let chars = ArrowType::Double.chars();
    assert_eq!(chars.line, '═');
    assert_eq!(chars.arrowhead_right, '⇒');
    assert_eq!(chars.arrowhead_left, '⇐');
}

#[test]
fn test_arrow_type_long_chars() {
    let chars = ArrowType::Long.chars();
    assert_eq!(chars.line, '─');
    assert_eq!(chars.arrowhead_right, '⟶');
    assert_eq!(chars.arrowhead_left, '⟵');
}

#[test]
fn test_arrow_type_dashed_chars() {
    let chars = ArrowType::Dashed.chars();
    assert_eq!(chars.line, '·');
    assert_eq!(chars.arrowhead_right, '>');
    assert_eq!(chars.arrowhead_left, '<');
}

#[test]
fn test_arrow_type_from_char() {
    assert_eq!(ArrowType::from_char('→'), Some(ArrowType::Standard));
    assert_eq!(ArrowType::from_char('←'), Some(ArrowType::Standard));
    assert_eq!(ArrowType::from_char('⇒'), Some(ArrowType::Double));
    assert_eq!(ArrowType::from_char('⇐'), Some(ArrowType::Double));
    assert_eq!(ArrowType::from_char('⟶'), Some(ArrowType::Long));
    assert_eq!(ArrowType::from_char('⟵'), Some(ArrowType::Long));
    assert_eq!(ArrowType::from_char('a'), None);
}

#[test]
fn test_arrow_type_is_vertical_arrow_char() {
    assert!(is_vertical_arrow_char('↓'));
    assert!(is_vertical_arrow_char('↑'));
    assert!(is_vertical_arrow_char('⇓'));
    assert!(is_vertical_arrow_char('⇑'));
    assert!(is_vertical_arrow_char('⟱'));
    assert!(is_vertical_arrow_char('⟰'));
    assert!(!is_vertical_arrow_char('→'));
    assert!(!is_vertical_arrow_char('a'));
}

#[test]
fn test_horizontal_arrow_has_type_field() {
    let arr = HorizontalArrow {
        row: 5,
        start_col: 2,
        end_col: 8,
        arrow_type: ArrowType::Standard,
        rightward: true,
        arrow_char: None,
    };
    assert_eq!(arr.arrow_type, ArrowType::Standard);
    assert!(arr.rightward);
}

#[test]
fn test_horizontal_arrow_leftward() {
    let arr = HorizontalArrow {
        row: 5,
        start_col: 8,
        end_col: 2,
        arrow_type: ArrowType::Double,
        rightward: false,
        arrow_char: None,
    };
    assert_eq!(arr.arrow_type, ArrowType::Double);
    assert!(!arr.rightward);
}

#[test]
fn test_vertical_arrow_has_type_field() {
    let arr = VerticalArrow {
        col: 3,
        start_row: 1,
        end_row: 6,
        arrow_type: ArrowType::Long,
        downward: true,
        arrow_char: None,
    };
    assert_eq!(arr.arrow_type, ArrowType::Long);
    assert!(arr.downward);
}

#[test]
fn test_vertical_arrow_upward() {
    let arr = VerticalArrow {
        col: 3,
        start_row: 6,
        end_row: 1,
        arrow_type: ArrowType::Dashed,
        downward: false,
        arrow_char: None,
    };
    assert_eq!(arr.arrow_type, ArrowType::Dashed);
    assert!(!arr.downward);
}

#[test]
fn test_segment_horizontal() {
    let seg = Segment::Horizontal {
        row: 5,
        start_col: 2,
        end_col: 8,
    };
    match seg {
        Segment::Horizontal {
            row,
            start_col,
            end_col,
        } => {
            assert_eq!(row, 5);
            assert_eq!(start_col, 2);
            assert_eq!(end_col, 8);
        }
        Segment::Vertical { .. } => panic!("Expected Horizontal segment"),
    }
}

#[test]
fn test_segment_vertical() {
    let seg = Segment::Vertical {
        col: 3,
        start_row: 1,
        end_row: 6,
    };
    match seg {
        Segment::Vertical {
            col,
            start_row,
            end_row,
        } => {
            assert_eq!(col, 3);
            assert_eq!(start_row, 1);
            assert_eq!(end_row, 6);
        }
        Segment::Horizontal { .. } => panic!("Expected Vertical segment"),
    }
}

#[test]
fn test_connection_line_basic() {
    let conn = ConnectionLine {
        segments: vec![
            Segment::Horizontal {
                row: 2,
                start_col: 0,
                end_col: 5,
            },
            Segment::Vertical {
                col: 5,
                start_row: 2,
                end_row: 5,
            },
        ],
        from_box: Some(0),
        to_box: Some(1),
    };
    assert_eq!(conn.segments.len(), 2);
    assert_eq!(conn.from_box, Some(0));
    assert_eq!(conn.to_box, Some(1));
}

#[test]
fn test_connection_line_unattached() {
    let conn = ConnectionLine {
        segments: vec![Segment::Horizontal {
            row: 3,
            start_col: 0,
            end_col: 10,
        }],
        from_box: None,
        to_box: None,
    };
    assert_eq!(conn.segments.len(), 1);
    assert!(conn.from_box.is_none());
    assert!(conn.to_box.is_none());
}

#[test]
fn test_connection_line_single_segment() {
    let conn = ConnectionLine {
        segments: vec![Segment::Vertical {
            col: 2,
            start_row: 0,
            end_row: 4,
        }],
        from_box: Some(0),
        to_box: None,
    };
    assert_eq!(conn.segments.len(), 1);
    assert_eq!(conn.from_box, Some(0));
}
