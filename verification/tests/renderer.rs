use ascfix::primitives::{BoxStyle, Label, LabelAttachment, PrimitiveInventory};
use ascfix::renderer::render_diagram;

#[test]
fn test_render_nested_different_styles() {
    let mut inventory = PrimitiveInventory::default();
    // Single-line parent
    inventory.boxes.push(ascfix::primitives::Box {
        top_left: (0, 0),
        bottom_right: (4, 8),
        style: BoxStyle::Single,
        parent_idx: None,
        child_indices: vec![1],
    });
    // Double-line child
    inventory.boxes.push(ascfix::primitives::Box {
        top_left: (1, 2),
        bottom_right: (3, 6),
        style: BoxStyle::Double,
        parent_idx: Some(0),
        child_indices: Vec::new(),
    });

    let grid = render_diagram(&inventory);
    // Parent corners should be single-line
    assert_eq!(grid.get(0, 0), Some('┌'));
    // Child corners should be double-line
    assert_eq!(grid.get(1, 2), Some('╔'));
}

#[test]
fn test_render_multiple_nested_levels() {
    let mut inventory = PrimitiveInventory::default();
    // Grandparent
    inventory.boxes.push(ascfix::primitives::Box {
        top_left: (0, 0),
        bottom_right: (6, 10),
        style: BoxStyle::Single,
        parent_idx: None,
        child_indices: vec![1],
    });
    // Parent
    inventory.boxes.push(ascfix::primitives::Box {
        top_left: (1, 1),
        bottom_right: (5, 9),
        style: BoxStyle::Double,
        parent_idx: Some(0),
        child_indices: vec![2],
    });
    // Child
    inventory.boxes.push(ascfix::primitives::Box {
        top_left: (2, 2),
        bottom_right: (4, 8),
        style: BoxStyle::Rounded,
        parent_idx: Some(1),
        child_indices: Vec::new(),
    });

    let grid = render_diagram(&inventory);
    // All boxes should be rendered with their own styles
    assert_eq!(grid.get(0, 0), Some('┌'));
    assert_eq!(grid.get(1, 1), Some('╔'));
    assert_eq!(grid.get(2, 2), Some('╭'));
}

#[test]
fn test_render_with_labels() {
    
    let mut inventory = PrimitiveInventory::default();
    // Add a box
    inventory.boxes.push(ascfix::primitives::Box {
        top_left: (0, 0),
        bottom_right: (2, 4),
        style: BoxStyle::Single,
        parent_idx: None,
        child_indices: Vec::new(),
    });
    // Add a label
    inventory.labels.push(Label {
        row: 4,
        col: 0,
        content: "Label".to_string(),
        attached_to: LabelAttachment::Box(0),
        offset: (2, 0),
    });

    let grid = render_diagram(&inventory);
    // Box should be rendered
    assert_eq!(grid.get(0, 0), Some('┌'));

    // Label should be rendered with formatting (truncated due to grid width)
    assert_eq!(grid.get(4, 0), Some(' '));
    assert_eq!(grid.get(4, 1), Some('L'));
    assert_eq!(grid.get(4, 2), Some('a'));
    assert_eq!(grid.get(4, 3), Some('b'));
    assert_eq!(grid.get(4, 4), Some('e'));
    // Grid should accommodate label space
    assert!(grid.height() > 4);
}

#[test]
fn test_render_empty_labels() {
    let mut inventory = PrimitiveInventory::default();
    // Add a box with no labels
    inventory.boxes.push(ascfix::primitives::Box {
        top_left: (0, 0),
        bottom_right: (2, 4),
        style: BoxStyle::Single,
        parent_idx: None,
        child_indices: Vec::new(),
    });

    let grid = render_diagram(&inventory);
    // Box should be rendered normally
    assert_eq!(grid.get(0, 0), Some('┌'));
}

#[test]
fn test_render_label_no_collision() {
    
    let mut inventory = PrimitiveInventory::default();
    // Add a box
    inventory.boxes.push(ascfix::primitives::Box {
        top_left: (0, 0),
        bottom_right: (2, 4),
        style: BoxStyle::Single,
        parent_idx: None,
        child_indices: Vec::new(),
    });
    // Add a label far from box (empty space)
    inventory.labels.push(Label {
        row: 5,
        col: 0,
        content: "Text".to_string(),
        attached_to: LabelAttachment::Box(0),
        offset: (3, 0),
    });

    let grid = render_diagram(&inventory);
    // Box corners should be intact
    assert_eq!(grid.get(0, 0), Some('┌'));
    assert_eq!(grid.get(2, 4), Some('┘'));

    // Label should be placed in empty space with formatting
    assert_eq!(grid.get(5, 0), Some(' '));
    assert_eq!(grid.get(5, 1), Some('T'));
    assert_eq!(grid.get(5, 2), Some('e'));
    assert_eq!(grid.get(5, 3), Some('x'));
    assert_eq!(grid.get(5, 4), Some('t'));
}

#[test]
fn test_render_multiple_labels() {
    
    let mut inventory = PrimitiveInventory::default();
    // Add two boxes
    inventory.boxes.push(ascfix::primitives::Box {
        top_left: (0, 0),
        bottom_right: (2, 3),
        style: BoxStyle::Single,
        parent_idx: None,
        child_indices: Vec::new(),
    });
    inventory.boxes.push(ascfix::primitives::Box {
        top_left: (0, 5),
        bottom_right: (2, 8),
        style: BoxStyle::Single,
        parent_idx: None,
        child_indices: Vec::new(),
    });
    // Add labels for each box
    inventory.labels.push(Label {
        row: 4,
        col: 1,
        content: "First".to_string(),
        attached_to: LabelAttachment::Box(0),
        offset: (2, 0),
    });
    inventory.labels.push(Label {
        row: 4,
        col: 6,
        content: "Second".to_string(),
        attached_to: LabelAttachment::Box(1),
        offset: (2, 0),
    });

    let grid = render_diagram(&inventory);
    // Both boxes should be rendered
    assert_eq!(grid.get(0, 0), Some('┌'));
    assert_eq!(grid.get(0, 5), Some('┌'));

    // Both labels should be rendered with formatting (truncated due to grid width)
    // " First " starts at col 1, " Second " starts at col 7
    assert_eq!(grid.get(4, 1), Some(' '));
    assert_eq!(grid.get(4, 2), Some('F'));
    assert_eq!(grid.get(4, 3), Some('i'));
    assert_eq!(grid.get(4, 4), Some('r'));
    assert_eq!(grid.get(4, 5), Some('s'));
    assert_eq!(grid.get(4, 6), Some(' '));
    assert_eq!(grid.get(4, 7), Some('S'));
    assert_eq!(grid.get(4, 8), Some('e'));
    assert_eq!(grid.get(4, 9), Some('c'));
    assert_eq!(grid.get(4, 10), Some('o'));
    assert_eq!(grid.get(4, 11), Some('n'));
}
