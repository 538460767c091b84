//! Primitive types representing ASCII diagram elements.

use vstd::prelude::*;


verus! {

/// Largest coordinate or length for which the geometry arithmetic of the
/// library (widths, expansions, centres, sums of up to 32 coordinates)
/// stays inside `isize`: a sixty-fourth of `usize::MAX`, so the bound is
/// the machine's and not a size chosen for diagrams.
pub const MAX_COORD: usize = usize::MAX / 64;

/// A coordinate or length small enough for the geometry arithmetic.
pub open spec fn small(n: int) -> bool {
    0 <= n <= MAX_COORD
}

/// Box drawing style for different box types.
#[derive(Debug, Clone, Copy, PartialEq, Eq, Structural)]
pub enum BoxStyle {
    /// Single-line boxes: ─ │ ┌ ┐ └ ┘
    Single,
    /// Double-line boxes: ═ ║ ╔ ╗ ╚ ╝
    Double,
    /// Rounded-corner boxes: ─ │ ╭ ╮ ╰ ╯
    Rounded,
}

/// Box drawing characters for a specific style.
#[derive(Debug, Clone, Copy, PartialEq, Eq, Structural)]
pub struct BoxChars {
    /// Horizontal line character
    pub horizontal: char,
    /// Vertical line character
    pub vertical: char,
    /// Top-left corner
    pub top_left: char,
    /// Top-right corner
    pub top_right: char,
    /// Bottom-left corner
    pub bottom_left: char,
    /// Bottom-right corner
    pub bottom_right: char,
}

/// The characters of each box style.
pub open spec fn box_chars_spec(style: BoxStyle) -> BoxChars {
    match style {
        BoxStyle::Single => BoxChars {
            horizontal: '─',
            vertical: '│',
            top_left: '┌',
            top_right: '┐',
            bottom_left: '└',
            bottom_right: '┘',
        },
        BoxStyle::Double => BoxChars {
            horizontal: '═',
            vertical: '║',
            top_left: '╔',
            top_right: '╗',
            bottom_left: '╚',
            bottom_right: '╝',
        },
        BoxStyle::Rounded => BoxChars {
            horizontal: '─',
            vertical: '│',
            top_left: '╭',
            top_right: '╮',
            bottom_left: '╰',
            bottom_right: '╯',
        },
    }
}

/// The style whose corner set holds `ch`, if any.
pub open spec fn style_of_corner(ch: char) -> Option<BoxStyle> {
    if ch == '┌' || ch == '┐' || ch == '└' || ch == '┘' {
        Some(BoxStyle::Single)
    } else if ch == '╔' || ch == '╗' || ch == '╚' || ch == '╝' {
        Some(BoxStyle::Double)
    } else if ch == '╭' || ch == '╮' || ch == '╰' || ch == '╯' {
        Some(BoxStyle::Rounded)
    } else {
        None
    }
}

impl BoxStyle {
    /// Get the characters used for this box style.
    pub fn chars(self) -> (r: BoxChars)
        ensures
            r == box_chars_spec(self),
    {
        match self {
            BoxStyle::Single => BoxChars {
                horizontal: '─',
                vertical: '│',
                top_left: '┌',
                top_right: '┐',
                bottom_left: '└',
                bottom_right: '┘',
            },
            BoxStyle::Double => BoxChars {
                horizontal: '═',
                vertical: '║',
                top_left: '╔',
                top_right: '╗',
                bottom_left: '╚',
                bottom_right: '╝',
            },
            BoxStyle::Rounded => BoxChars {
                horizontal: '─',
                vertical: '│',
                top_left: '╭',
                top_right: '╮',
                bottom_left: '╰',
                bottom_right: '╯',
            },
        }
    }

    /// Determine box style from a corner character; `None` for a
    /// character that is not a corner.
    pub fn from_corner(ch: char) -> (r: Option<BoxStyle>)
        ensures
            r == style_of_corner(ch),
    {
        if ch == '┌' || ch == '┐' || ch == '└' || ch == '┘' {
            Some(BoxStyle::Single)
        } else if ch == '╔' || ch == '╗' || ch == '╚' || ch == '╝' {
            Some(BoxStyle::Double)
        } else if ch == '╭' || ch == '╮' || ch == '╰' || ch == '╯' {
            Some(BoxStyle::Rounded)
        } else {
            None
        }
    }
}

/// A rectangular box defined by its border.
#[derive(Debug, PartialEq, Eq)]
pub struct Box {
    /// Top-left corner (row, col)
    pub top_left: (usize, usize),
    /// Bottom-right corner (row, col)
    pub bottom_right: (usize, usize),
    /// Style of the box (single, double, or rounded lines)
    pub style: BoxStyle,
    /// Index of parent box (if nested inside another box)
    pub parent_idx: Option<usize>,
    /// Indices of child boxes (if this box contains other boxes)
    pub child_indices: Vec<usize>,
}

/// Mathematical value of a [`Box`].
pub struct BoxV {
    pub top_left: (usize, usize),
    pub bottom_right: (usize, usize),
    pub style: BoxStyle,
    pub parent_idx: Option<usize>,
    pub child_indices: Seq<usize>,
}

impl View for Box {
    type V = BoxV;

    open spec fn view(&self) -> BoxV {
        BoxV {
            top_left: self.top_left,
            bottom_right: self.bottom_right,
            style: self.style,
            parent_idx: self.parent_idx,
            child_indices: self.child_indices@,
        }
    }
}

impl BoxV {
    /// Number of columns spanned by the box.
    pub open spec fn width(self) -> int {
        self.bottom_right.1 - self.top_left.1 + 1
    }

    /// Number of rows spanned by the box.
    pub open spec fn height(self) -> int {
        self.bottom_right.0 - self.top_left.0 + 1
    }

    /// Strictly inside the border.
    pub open spec fn interior(self, row: int, col: int) -> bool {
        self.top_left.0 < row < self.bottom_right.0 && self.top_left.1 < col < self.bottom_right.1
    }

    /// On the border.
    pub open spec fn border(self, row: int, col: int) -> bool {
        ||| (row == self.top_left.0 || row == self.bottom_right.0) && self.top_left.1 <= col
            <= self.bottom_right.1
        ||| (col == self.top_left.1 || col == self.bottom_right.1) && self.top_left.0 <= row
            <= self.bottom_right.0
    }
}

/// Copy the indices of a vector.
pub fn copy_indices(v: &Vec<usize>) -> (r: Vec<usize>)
    ensures
        r@ == v@,
{
    let mut r: Vec<usize> = Vec::new();
    let mut i: usize = 0;
    while i < v.len()
        invariant
            i <= v.len(),
            r@ == v@.take(i as int),
        decreases v.len() - i,
    {
        r.push(v[i]);
        i += 1;
        assert(r@ =~= v@.take(i as int));
    }
    assert(v@.take(i as int) =~= v@);
    r
}

impl Box {
    /// Get the width of the box (number of columns).
    pub fn width(&self) -> (w: usize)
        requires
            self.top_left.1 <= self.bottom_right.1,
            self.bottom_right.1 - self.top_left.1 < usize::MAX,
        ensures
            w == self@.width(),
    {
        self.bottom_right.1 - self.top_left.1 + 1
    }

    /// Get the height of the box (number of rows).
    pub fn height(&self) -> (h: usize)
        requires
            self.top_left.0 <= self.bottom_right.0,
            self.bottom_right.0 - self.top_left.0 < usize::MAX,
        ensures
            h == self@.height(),
    {
        self.bottom_right.0 - self.top_left.0 + 1
    }

    /// Check if a position is inside the box interior (not on border).
    pub fn contains_interior(&self, row: usize, col: usize) -> (b: bool)
        ensures
            b == self@.interior(row as int, col as int),
    {
        row > self.top_left.0 && row < self.bottom_right.0 && col > self.top_left.1 && col
            < self.bottom_right.1
    }

    /// Check if a position is on the box border.
    pub fn contains_border(&self, row: usize, col: usize) -> (b: bool)
        ensures
            b == self@.border(row as int, col as int),
    {
        (row == self.top_left.0 || row == self.bottom_right.0) && col >= self.top_left.1 && col
            <= self.bottom_right.1 || (col == self.top_left.1 || col == self.bottom_right.1) && row
            >= self.top_left.0 && row <= self.bottom_right.0
    }

    /// An equal copy of the box.
    pub fn copy(&self) -> (r: Box)
        ensures
            r@ == self@,
    {
        Box {
            top_left: self.top_left,
            bottom_right: self.bottom_right,
            style: self.style,
            parent_idx: self.parent_idx,
            child_indices: copy_indices(&self.child_indices),
        }
    }
}

impl Clone for Box {
    fn clone(&self) -> (r: Self)
        ensures
            r@ == self@,
    {
        self.copy()
    }
}

/// Arrow type for different arrow styles.
#[derive(Debug, Clone, Copy, PartialEq, Eq, Structural)]
pub enum ArrowType {
    /// Standard arrow: → ←
    Standard,
    /// Double arrow: ⇒ ⇐
    Double,
    /// Long arrow: ⟶ ⟵
    Long,
    /// Dashed arrow: · > <
    Dashed,
}

/// Arrow drawing characters for a specific style.
#[derive(Debug, Clone, Copy, PartialEq, Eq, Structural)]
pub struct ArrowChars {
    /// Line character
    pub line: char,
    /// Arrowhead pointing right
    pub arrowhead_right: char,
    /// Arrowhead pointing left
    pub arrowhead_left: char,
}

/// The characters of each arrow type.
pub open spec fn arrow_chars_spec(t: ArrowType) -> ArrowChars {
    match t {
        ArrowType::Standard => ArrowChars { line: '─', arrowhead_right: '→', arrowhead_left: '←' },
        ArrowType::Double => ArrowChars { line: '═', arrowhead_right: '⇒', arrowhead_left: '⇐' },
        ArrowType::Long => ArrowChars { line: '─', arrowhead_right: '⟶', arrowhead_left: '⟵' },
        ArrowType::Dashed => ArrowChars { line: '·', arrowhead_right: '>', arrowhead_left: '<' },
    }
}

/// The arrow type whose arrowheads include `ch`, if any.
pub open spec fn arrow_type_of(ch: char) -> Option<ArrowType> {
    if ch == '→' || ch == '←' {
        Some(ArrowType::Standard)
    } else if ch == '⇒' || ch == '⇐' {
        Some(ArrowType::Double)
    } else if ch == '⟶' || ch == '⟵' {
        Some(ArrowType::Long)
    } else if ch == '>' || ch == '<' {
        Some(ArrowType::Dashed)
    } else {
        None
    }
}

impl ArrowType {
    /// Get the characters used for this arrow type.
    pub fn chars(self) -> (r: ArrowChars)
        ensures
            r == arrow_chars_spec(self),
    {
        match self {
            ArrowType::Standard => ArrowChars {
                line: '─',
                arrowhead_right: '→',
                arrowhead_left: '←',
            },
            ArrowType::Double => ArrowChars {
                line: '═',
                arrowhead_right: '⇒',
                arrowhead_left: '⇐',
            },
            ArrowType::Long => ArrowChars {
                line: '─',
                arrowhead_right: '⟶',
                arrowhead_left: '⟵',
            },
            ArrowType::Dashed => ArrowChars {
                line: '·',
                arrowhead_right: '>',
                arrowhead_left: '<',
            },
        }
    }

    /// Determine arrow type from an arrowhead character; `None` for a
    /// character that is not an arrowhead.
    pub fn from_char(ch: char) -> (r: Option<ArrowType>)
        ensures
            r == arrow_type_of(ch),
    {
        if ch == '→' || ch == '←' {
            Some(ArrowType::Standard)
        } else if ch == '⇒' || ch == '⇐' {
            Some(ArrowType::Double)
        } else if ch == '⟶' || ch == '⟵' {
            Some(ArrowType::Long)
        } else if ch == '>' || ch == '<' {
            Some(ArrowType::Dashed)
        } else {
            None
        }
    }
}

/// A horizontal arrow or connector.
#[derive(Debug, Clone, Copy, PartialEq, Eq, Structural)]
pub struct HorizontalArrow {
    /// Row position
    pub row: usize,
    /// Starting column
    pub start_col: usize,
    /// Ending column
    pub end_col: usize,
    /// Type of the arrow (standard, double, long, dashed)
    pub arrow_type: ArrowType,
    /// Direction: true if rightward (→), false if leftward (←)
    pub rightward: bool,
    /// The arrowhead character found in the source, if any
    pub arrow_char: Option<char>,
}

/// A vertical arrow or connector.
#[derive(Debug, Clone, Copy, PartialEq, Eq, Structural)]
pub struct VerticalArrow {
    /// Column position
    pub col: usize,
    /// Starting row
    pub start_row: usize,
    /// Ending row
    pub end_row: usize,
    /// Type of the arrow (standard, double, long, dashed)
    pub arrow_type: ArrowType,
    /// Direction: true if downward (↓), false if upward (↑)
    pub downward: bool,
    /// The arrowhead character found in the source, if any
    pub arrow_char: Option<char>,
}

/// A row of text content.
#[derive(Debug, Clone, PartialEq, Eq)]
pub struct TextRow {
    /// Row position
    pub row: usize,
    /// Starting column
    pub start_col: usize,
    /// Ending column (inclusive)
    pub end_col: usize,
    /// Text content
    pub content: String,
}

/// Mathematical value of a [`TextRow`].
pub struct TextRowV {
    pub row: usize,
    pub start_col: usize,
    pub end_col: usize,
    pub content: Seq<char>,
}

impl View for TextRow {
    type V = TextRowV;

    open spec fn view(&self) -> TextRowV {
        TextRowV {
            row: self.row,
            start_col: self.start_col,
            end_col: self.end_col,
            content: self.content@,
        }
    }
}

/// Copy a string.
pub fn copy_string(s: &String) -> (r: String)
    ensures
        r@ == s@,
{
    s.clone()
}

impl TextRow {
    /// An equal copy of the row.
    pub fn copy(&self) -> (r: TextRow)
        ensures
            r@ == self@,
    {
        TextRow {
            row: self.row,
            start_col: self.start_col,
            end_col: self.end_col,
            content: copy_string(&self.content),
        }
    }
}

/// A segment of a connection line (either horizontal or vertical).
#[derive(Debug, Clone, Copy, PartialEq, Eq, Structural)]
pub enum Segment {
    /// Horizontal segment: row and column range
    Horizontal {
        /// Row position
        row: usize,
        /// Starting column
        start_col: usize,
        /// Ending column
        end_col: usize,
    },
    /// Vertical segment: column and row range
    Vertical {
        /// Column position
        col: usize,
        /// Starting row
        start_row: usize,
        /// Ending row
        end_row: usize,
    },
}

/// Number of cells spanned by a segment.
pub open spec fn segment_length(s: Segment) -> int {
    match s {
        Segment::Horizontal { start_col, end_col, .. } => end_col - start_col + 1,
        Segment::Vertical { start_row, end_row, .. } => end_row - start_row + 1,
    }
}

impl Segment {
    /// Get the length of this segment (number of cells spanned).
    pub fn length(&self) -> (n: usize)
        requires
            0 < segment_length(*self) <= usize::MAX,
        ensures
            n == segment_length(*self),
    {
        match self {
            Segment::Horizontal { start_col, end_col, .. } => *end_col - *start_col + 1,
            Segment::Vertical { start_row, end_row, .. } => *end_row - *start_row + 1,
        }
    }
}

/// An L-shaped or multi-segment connection line (e.g., between boxes).
#[derive(Debug, Clone, PartialEq, Eq)]
pub struct ConnectionLine {
    /// Segments that make up this connection line
    pub segments: Vec<Segment>,
    /// Index of the box this line originates from (if any)
    pub from_box: Option<usize>,
    /// Index of the box this line connects to (if any)
    pub to_box: Option<usize>,
}

/// Mathematical value of a [`ConnectionLine`].
pub struct ConnectionLineV {
    pub segments: Seq<Segment>,
    pub from_box: Option<usize>,
    pub to_box: Option<usize>,
}

impl View for ConnectionLine {
    type V = ConnectionLineV;

    open spec fn view(&self) -> ConnectionLineV {
        ConnectionLineV { segments: self.segments@, from_box: self.from_box, to_box: self.to_box }
    }
}

impl ConnectionLine {
    /// An equal copy of the line.
    pub fn copy(&self) -> (r: ConnectionLine)
        ensures
            r@ == self@,
    {
        let mut segs: Vec<Segment> = Vec::new();
        let mut i: usize = 0;
        while i < self.segments.len()
            invariant
                i <= self.segments.len(),
                segs@ == self.segments@.take(i as int),
            decreases self.segments.len() - i,
        {
            segs.push(self.segments[i]);
            i += 1;
            assert(segs@ =~= self.segments@.take(i as int));
        }
        assert(self.segments@.take(i as int) =~= self.segments@);
        ConnectionLine { segments: segs, from_box: self.from_box, to_box: self.to_box }
    }
}

/// The primitive a label is attached to.
#[derive(Debug, Clone, Copy, PartialEq, Eq, Structural)]
pub enum LabelAttachment {
    /// Attached to the box with this index
    Box(usize),
    /// Attached to the horizontal arrow with this index
    HorizontalArrow(usize),
    /// Attached to the vertical arrow with this index
    VerticalArrow(usize),
}

/// A text label placed near a primitive.
#[derive(Debug, PartialEq, Eq)]
pub struct Label {
    /// Row position
    pub row: usize,
    /// Starting column
    pub col: usize,
    /// Label text
    pub content: String,
    /// The primitive the label belongs to
    pub attached_to: LabelAttachment,
    /// Offset (rows, columns) from the attached primitive
    pub offset: (isize, isize),
}

/// Mathematical value of a [`Label`].
pub struct LabelV {
    pub row: usize,
    pub col: usize,
    pub content: Seq<char>,
    pub attached_to: LabelAttachment,
    pub offset: (isize, isize),
}

impl View for Label {
    type V = LabelV;

    open spec fn view(&self) -> LabelV {
        LabelV {
            row: self.row,
            col: self.col,
            content: self.content@,
            attached_to: self.attached_to,
            offset: self.offset,
        }
    }
}

impl Label {
    /// An equal copy of the label.
    pub fn copy(&self) -> (r: Label)
        ensures
            r@ == self@,
    {
        Label {
            row: self.row,
            col: self.col,
            content: copy_string(&self.content),
            attached_to: self.attached_to,
            offset: self.offset,
        }
    }
}

impl Clone for Label {
    fn clone(&self) -> (r: Self)
        ensures
            r@ == self@,
    {
        self.copy()
    }
}

/// True for a character of a box border of any style, or a junction.
pub open spec fn is_box_char_spec(ch: char) -> bool {
    ||| ch == '─' || ch == '│' || ch == '┌' || ch == '┐' || ch == '└' || ch == '┘'
    ||| ch == '├' || ch == '┤' || ch == '┼' || ch == '┬' || ch == '┴' || ch == '┃'
    ||| ch == '═' || ch == '║' || ch == '╔' || ch == '╗' || ch == '╚' || ch == '╝'
    ||| ch == '╭' || ch == '╮' || ch == '╰' || ch == '╯'
}

/// Check if a character is a box character.
pub fn is_box_char(ch: char) -> (b: bool)
    ensures
        b == is_box_char_spec(ch),
{
    ch == '─' || ch == '│' || ch == '┌' || ch == '┐' || ch == '└' || ch == '┘' || ch == '├' || ch
        == '┤' || ch == '┼' || ch == '┬' || ch == '┴' || ch == '┃' || ch == '═' || ch == '║' || ch
        == '╔' || ch == '╗' || ch == '╚' || ch == '╝' || ch == '╭' || ch == '╮' || ch == '╰' || ch
        == '╯'
}

/// Check if a character is a box corner (any style).
pub fn is_box_corner(ch: char) -> (b: bool)
    ensures
        b == (style_of_corner(ch) is Some),
{
    ch == '┌' || ch == '┐' || ch == '└' || ch == '┘' || ch == '╔' || ch == '╗' || ch == '╚' || ch
        == '╝' || ch == '╭' || ch == '╮' || ch == '╰' || ch == '╯'
}

/// Check if a character is a double-line box corner.
pub fn is_double_line_corner(ch: char) -> (b: bool)
    ensures
        b == (style_of_corner(ch) == Some(BoxStyle::Double)),
{
    ch == '╔' || ch == '╗' || ch == '╚' || ch == '╝'
}

/// Check if a character is a rounded box corner.
pub fn is_rounded_corner(ch: char) -> (b: bool)
    ensures
        b == (style_of_corner(ch) == Some(BoxStyle::Rounded)),
{
    ch == '╭' || ch == '╮' || ch == '╰' || ch == '╯'
}

/// Check if a character is a vertical arrow character (any style or direction).
pub fn is_vertical_arrow_char(ch: char) -> (b: bool)
    ensures
        b == (ch == '↓' || ch == '↑' || ch == '⇓' || ch == '⇑' || ch == '⟱' || ch == '⟰'),
{
    ch == '↓' || ch == '↑' || ch == '⇓' || ch == '⇑' || ch == '⟱' || ch == '⟰'
}

/// Complete inventory of detected primitives in a diagram.
#[derive(Debug, Clone)]
pub struct PrimitiveInventory {
    /// Detected boxes
    pub boxes: Vec<Box>,
    /// Detected horizontal arrows
    pub horizontal_arrows: Vec<HorizontalArrow>,
    /// Detected vertical arrows
    pub vertical_arrows: Vec<VerticalArrow>,
    /// Text rows (extracted from inside boxes)
    pub text_rows: Vec<TextRow>,
    /// Detected connection lines
    pub connection_lines: Vec<ConnectionLine>,
    /// Detected labels
    pub labels: Vec<Label>,
}

/// Mathematical value of a [`PrimitiveInventory`].
pub struct InventoryV {
    pub boxes: Seq<BoxV>,
    pub horizontal_arrows: Seq<HorizontalArrow>,
    pub vertical_arrows: Seq<VerticalArrow>,
    pub text_rows: Seq<TextRowV>,
    pub connection_lines: Seq<ConnectionLineV>,
    pub labels: Seq<LabelV>,
}

impl View for PrimitiveInventory {
    type V = InventoryV;

    open spec fn view(&self) -> InventoryV {
        InventoryV {
            boxes: self.boxes@.map_values(|b: Box| b@),
            horizontal_arrows: self.horizontal_arrows@,
            vertical_arrows: self.vertical_arrows@,
            text_rows: self.text_rows@.map_values(|r: TextRow| r@),
            connection_lines: self.connection_lines@.map_values(|c: ConnectionLine| c@),
            labels: self.labels@.map_values(|l: Label| l@),
        }
    }
}

impl Default for PrimitiveInventory {
    fn default() -> (r: Self)
        ensures
            r.boxes@.len() == 0,
            r.horizontal_arrows@.len() == 0,
            r.vertical_arrows@.len() == 0,
            r.text_rows@.len() == 0,
            r.connection_lines@.len() == 0,
            r.labels@.len() == 0,
    {
        PrimitiveInventory {
            boxes: Vec::new(),
            horizontal_arrows: Vec::new(),
            vertical_arrows: Vec::new(),
            text_rows: Vec::new(),
            connection_lines: Vec::new(),
            labels: Vec::new(),
        }
    }
}

/// Copy a vector of boxes.
pub fn copy_boxes(v: &Vec<Box>) -> (r: Vec<Box>)
    ensures
        r@.map_values(|b: Box| b@) == v@.map_values(|b: Box| b@),
{
    let mut r: Vec<Box> = Vec::new();
    let mut i: usize = 0;
    while i < v.len()
        invariant
            i <= v.len(),
            r@.len() == i,
            forall|k: int| 0 <= k < i ==> (#[trigger] r@[k])@ == v@[k]@,
        decreases v.len() - i,
    {
        r.push(v[i].copy());
        i += 1;
    }
    assert(r@.map_values(|b: Box| b@) =~= v@.map_values(|b: Box| b@));
    r
}

/// Append copies of the boxes of `src` to `dst`.
pub fn append_boxes(dst: &mut Vec<Box>, src: &Vec<Box>)
    ensures
        final(dst)@.map_values(|b: Box| b@) == old(dst)@.map_values(|b: Box| b@) + src@.map_values(
            |b: Box| b@,
        ),
{
    let ghost d0 = dst@;
    let mut i: usize = 0;
    while i < src.len()
        invariant
            i <= src.len(),
            dst@.len() == d0.len() + i,
            forall|k: int| 0 <= k < d0.len() ==> (#[trigger] dst@[k])@ == d0[k]@,
            forall|k: int| 0 <= k < i ==> (#[trigger] dst@[d0.len() + k])@ == src@[k]@,
        decreases src.len() - i,
    {
        dst.push(src[i].copy());
        i += 1;
    }
    assert(dst@.map_values(|b: Box| b@) =~= d0.map_values(|b: Box| b@) + src@.map_values(|b: Box| b@)) by {
        assert forall|k: int| d0.len() <= k < dst@.len() implies (#[trigger] dst@[k])@ == src@[k - d0.len()]@ by {
            assert(dst@[d0.len() + (k - d0.len())] == dst@[k]);
        }
    }
}

/// Copy a vector of text rows.
pub fn copy_text_rows(v: &Vec<TextRow>) -> (r: Vec<TextRow>)
    ensures
        r@.map_values(|t: TextRow| t@) == v@.map_values(|t: TextRow| t@),
{
    let mut r: Vec<TextRow> = Vec::new();
    let mut i: usize = 0;
    while i < v.len()
        invariant
            i <= v.len(),
            r@.len() == i,
            forall|k: int| 0 <= k < i ==> (#[trigger] r@[k])@ == v@[k]@,
        decreases v.len() - i,
    {
        r.push(v[i].copy());
        i += 1;
    }
    assert(r@.map_values(|t: TextRow| t@) =~= v@.map_values(|t: TextRow| t@));
    r
}

/// Copy a vector of connection lines.
pub fn copy_connection_lines(v: &Vec<ConnectionLine>) -> (r: Vec<ConnectionLine>)
    ensures
        r@.map_values(|c: ConnectionLine| c@) == v@.map_values(|c: ConnectionLine| c@),
{
    let mut r: Vec<ConnectionLine> = Vec::new();
    let mut i: usize = 0;
    while i < v.len()
        invariant
            i <= v.len(),
            r@.len() == i,
            forall|k: int| 0 <= k < i ==> (#[trigger] r@[k])@ == v@[k]@,
        decreases v.len() - i,
    {
        r.push(v[i].copy());
        i += 1;
    }
    assert(r@.map_values(|c: ConnectionLine| c@) =~= v@.map_values(|c: ConnectionLine| c@));
    r
}

/// Copy a vector of labels.
pub fn copy_labels(v: &Vec<Label>) -> (r: Vec<Label>)
    ensures
        r@.map_values(|l: Label| l@) == v@.map_values(|l: Label| l@),
{
    let mut r: Vec<Label> = Vec::new();
    let mut i: usize = 0;
    while i < v.len()
        invariant
            i <= v.len(),
            r@.len() == i,
            forall|k: int| 0 <= k < i ==> (#[trigger] r@[k])@ == v@[k]@,
        decreases v.len() - i,
    {
        r.push(v[i].copy());
        i += 1;
    }
    assert(r@.map_values(|l: Label| l@) =~= v@.map_values(|l: Label| l@));
    r
}

/// Copy a vector of `Copy` values.
pub fn copy_vec<T: Copy>(v: &Vec<T>) -> (r: Vec<T>)
    ensures
        r@ == v@,
{
    let mut r: Vec<T> = Vec::new();
    let mut i: usize = 0;
    while i < v.len()
        invariant
            i <= v.len(),
            r@ == v@.take(i as int),
        decreases v.len() - i,
    {
        r.push(v[i]);
        i += 1;
        assert(r@ =~= v@.take(i as int));
    }
    assert(v@.take(i as int) =~= v@);
    r
}

impl PrimitiveInventory {
    /// An equal copy of the inventory.
    pub fn copy(&self) -> (r: PrimitiveInventory)
        ensures
            r@ == self@,
    {
        PrimitiveInventory {
            boxes: copy_boxes(&self.boxes),
            horizontal_arrows: copy_vec(&self.horizontal_arrows),
            vertical_arrows: copy_vec(&self.vertical_arrows),
            text_rows: copy_text_rows(&self.text_rows),
            connection_lines: copy_connection_lines(&self.connection_lines),
            labels: copy_labels(&self.labels),
        }
    }
}

} // verus!
