//! Box detection functionality.
//!
//! Uses a corner-tracing algorithm: for each top-left corner found in the grid,
//! trace the four walls of the rectangle to detect the box independently.
//! This correctly handles boxes connected by junction characters (┬, ┴, etc.).

use vstd::prelude::*;
use crate::grid::{cell, max_row_len, Grid};
use crate::primitives::{style_of_corner, Box, BoxStyle, BoxV};

verus! {

/// Top-left corner of any style.
pub open spec fn is_top_left_corner(ch: char) -> bool {
    ch == '┌' || ch == '╔' || ch == '╭'
}

/// Top-right corner of any style.
pub open spec fn is_top_right_corner(ch: char) -> bool {
    ch == '┐' || ch == '╗' || ch == '╮'
}

/// Bottom-left corner of any style.
pub open spec fn is_bottom_left_corner(ch: char) -> bool {
    ch == '└' || ch == '╚' || ch == '╰'
}

/// Bottom-right corner of any style.
pub open spec fn is_bottom_right_corner(ch: char) -> bool {
    ch == '┘' || ch == '╝' || ch == '╯'
}

/// Characters allowed on a top or bottom wall: lines, junctions, and the
/// arrow symbols that sit on borders as connection indicators.
pub open spec fn is_horizontal_border(ch: char) -> bool {
    ||| ch == '─' || ch == '┬' || ch == '┴' || ch == '┼' || ch == '├' || ch == '┤'
    ||| ch == '═' || ch == '╦' || ch == '╩' || ch == '╬'
    ||| ch == '▼' || ch == '▲' || ch == '↓' || ch == '↑' || ch == '⇓' || ch == '⇑'
}

/// Characters allowed on a left or right wall.
pub open spec fn is_vertical_border(ch: char) -> bool {
    ||| ch == '│' || ch == '├' || ch == '┤' || ch == '┼' || ch == '┬' || ch == '┴'
    ||| ch == '║' || ch == '╠' || ch == '╣' || ch == '╬'
    ||| ch == '►' || ch == '◄' || ch == '→' || ch == '←' || ch == '⇒' || ch == '⇐'
}

fn top_left_corner(ch: char) -> (b: bool)
    ensures
        b == is_top_left_corner(ch),
{
    ch == '┌' || ch == '╔' || ch == '╭'
}

fn horizontal_border(ch: char) -> (b: bool)
    ensures
        b == is_horizontal_border(ch),
{
    ch == '─' || ch == '┬' || ch == '┴' || ch == '┼' || ch == '├' || ch == '┤' || ch == '═' || ch
        == '╦' || ch == '╩' || ch == '╬' || ch == '▼' || ch == '▲' || ch == '↓' || ch == '↑' || ch
        == '⇓' || ch == '⇑'
}

fn vertical_border(ch: char) -> (b: bool)
    ensures
        b == is_vertical_border(ch),
{
    ch == '│' || ch == '├' || ch == '┤' || ch == '┼' || ch == '┬' || ch == '┴' || ch == '║' || ch
        == '╠' || ch == '╣' || ch == '╬' || ch == '►' || ch == '◄' || ch == '→' || ch == '←' || ch
        == '⇒' || ch == '⇐'
}

/// Which corner a trace looks for.
pub enum Corner {
    TopRight,
    BottomRight,
    BottomLeft,
}

/// The corner predicate of each traced corner.
pub open spec fn corner_matches(k: Corner, ch: char) -> bool {
    match k {
        Corner::TopRight => is_top_right_corner(ch),
        Corner::BottomRight => is_bottom_right_corner(ch),
        Corner::BottomLeft => is_bottom_left_corner(ch),
    }
}

fn corner_test(k: &Corner, ch: char) -> (b: bool)
    ensures
        b == corner_matches(*k, ch),
{
    match k {
        Corner::TopRight => ch == '┐' || ch == '╗' || ch == '╮',
        Corner::BottomRight => ch == '┘' || ch == '╝' || ch == '╯',
        Corner::BottomLeft => ch == '└' || ch == '╚' || ch == '╰',
    }
}

/// Walk right along row `row` from `col` over horizontal-border characters;
/// the column of the first target corner, or `None` when the walk meets any
/// other character or leaves the row.
pub open spec fn trace_h(g: Seq<Seq<char>>, row: int, col: int, k: Corner) -> Option<int>
    decreases (if 0 <= row < g.len() { g[row].len() - col } else { 0 }),
{
    match cell(g, row, col) {
        None => None,
        Some(ch) => if corner_matches(k, ch) {
            Some(col)
        } else if !is_horizontal_border(ch) {
            None
        } else {
            trace_h(g, row, col + 1, k)
        },
    }
}

/// Walk down column `col` from `row` over vertical-border characters.
pub open spec fn trace_v(g: Seq<Seq<char>>, col: int, row: int, k: Corner) -> Option<int>
    decreases g.len() - row,
{
    match cell(g, row, col) {
        None => None,
        Some(ch) => if corner_matches(k, ch) {
            Some(row)
        } else if !is_vertical_border(ch) {
            None
        } else {
            trace_v(g, col, row + 1, k)
        },
    }
}

/// The first of the candidate columns `primary`, `alt` (when different),
/// `primary - 1` (when it exists) and `primary + 1` that holds a vertical
/// border character on `row`.
pub open spec fn border_candidate(g: Seq<Seq<char>>, row: int, primary: int, alt: int) -> Option<int> {
    let vb = |c: int| cell(g, row, c) matches Some(ch) && is_vertical_border(ch);
    if vb(primary) {
        Some(primary)
    } else if alt != primary && vb(alt) {
        Some(alt)
    } else if primary >= 1 && vb(primary - 1) {
        Some(primary - 1)
    } else if vb(primary + 1) {
        Some(primary + 1)
    } else {
        None
    }
}

/// The largest column among `primary` and the border candidates of rows
/// `[row, end)`, or `None` when some row has no candidate.
pub open spec fn right_extent(g: Seq<Seq<char>>, primary: int, alt: int, row: int, end: int) -> Option<int>
    decreases end - row,
{
    if row >= end {
        Some(primary)
    } else {
        match border_candidate(g, row, primary, alt) {
            None => None,
            Some(c) => match right_extent(g, primary, alt, row + 1, end) {
                None => None,
                Some(m) => Some(if c > m { c } else { m }),
            },
        }
    }
}

/// A row without a border candidate makes every extent that covers it fail.
pub proof fn lemma_right_extent_none(g: Seq<Seq<char>>, primary: int, alt: int, s: int, r: int, end: int)
    requires
        s <= r,
        right_extent(g, primary, alt, r, end) is None,
    ensures
        right_extent(g, primary, alt, s, end) is None,
    decreases r - s,
{
    if s < r {
        lemma_right_extent_none(g, primary, alt, s + 1, r, end);
    }
}

/// The box traced from the top-left corner at (top, left), if the walls
/// close: left wall down to a bottom-left corner, top and bottom walls right
/// to their corners, the right edge at the further of the two, and a
/// vertical border near it on every interior row.
pub open spec fn trace_box_spec(g: Seq<Seq<char>>, top: int, left: int) -> Option<BoxV> {
    match cell(g, top, left) {
        None => None,
        Some(tl) => match style_of_corner(tl) {
            None => None,
            Some(style) => match trace_v(g, left, top + 1, Corner::BottomLeft) {
                None => None,
                Some(bottom) => match trace_h(g, top, left + 1, Corner::TopRight) {
                    None => None,
                    Some(trc) => match trace_h(g, bottom, left + 1, Corner::BottomRight) {
                        None => None,
                        Some(brc) => {
                            let right = if trc > brc { trc } else { brc };
                            match right_extent(g, right, trc, top + 1, bottom) {
                                None => None,
                                Some(actual) => Some(BoxV {
                                    top_left: (top as usize, left as usize),
                                    bottom_right: (bottom as usize, (if actual > right { actual } else { right }) as usize),
                                    style,
                                    parent_idx: None,
                                    child_indices: Seq::empty(),
                                }),
                            }
                        },
                    },
                },
            },
        },
    }
}

/// Boxes found scanning row `row` from column `col` to the grid width.
pub open spec fn boxes_in_row(g: Seq<Seq<char>>, row: int, col: int) -> Seq<BoxV>
    decreases max_row_len(g) - col,
{
    if col >= max_row_len(g) {
        Seq::empty()
    } else {
        let here = match cell(g, row, col) {
            Some(ch) => if is_top_left_corner(ch) {
                match trace_box_spec(g, row, col) {
                    Some(b) => seq![b],
                    None => Seq::empty(),
                }
            } else {
                Seq::empty()
            },
            None => Seq::empty(),
        };
        here + boxes_in_row(g, row, col + 1)
    }
}

/// Boxes found scanning rows `row..` in row-major order.
pub open spec fn boxes_from_row(g: Seq<Seq<char>>, row: int) -> Seq<BoxV>
    decreases g.len() - row,
{
    if row >= g.len() {
        Seq::empty()
    } else {
        boxes_in_row(g, row, 0) + boxes_from_row(g, row + 1)
    }
}

/// All boxes of a grid, in row-major order of their top-left corners.
pub open spec fn detect_boxes_spec(g: Seq<Seq<char>>) -> Seq<BoxV> {
    boxes_from_row(g, 0)
}

/// Every grid coordinate fits the geometry bound.
pub open spec fn grid_small(g: Seq<Seq<char>>) -> bool {
    g.len() < crate::primitives::MAX_COORD && max_row_len(g) < crate::primitives::MAX_COORD
}

/// A box as the tracer produces it: at least one interior column and row
/// apart, inside the grid.
pub open spec fn traced_box_ok(g: Seq<Seq<char>>, b: BoxV) -> bool {
    &&& b.top_left.0 < b.bottom_right.0 < g.len()
    &&& b.top_left.1 < b.bottom_right.1 < max_row_len(g)
    &&& b.child_indices.len() == 0
    &&& b.parent_idx is None
    &&& cell(g, b.top_left.0 as int, b.top_left.1 as int) matches Some(ch) && style_of_corner(ch) == Some(b.style)
    &&& cell(g, b.bottom_right.0 as int, b.top_left.1 as int) matches Some(ch) && is_bottom_left_corner(ch)
}

/// A box as the detector reports it: traced from a top-left corner.
pub open spec fn detected_box_ok(g: Seq<Seq<char>>, b: BoxV) -> bool {
    &&& traced_box_ok(g, b)
    &&& cell(g, b.top_left.0 as int, b.top_left.1 as int) matches Some(ch) && is_top_left_corner(ch)
}

proof fn lemma_trace_h(g: Seq<Seq<char>>, row: int, col: int, k: Corner)
    ensures
        trace_h(g, row, col, k) matches Some(c) ==> col <= c && 0 <= row < g.len() && 0 <= c < g[row].len(),
    decreases (if 0 <= row < g.len() { g[row].len() - col } else { 0 }),
{
    match cell(g, row, col) {
        None => {},
        Some(ch) => {
            if !corner_matches(k, ch) && is_horizontal_border(ch) {
                lemma_trace_h(g, row, col + 1, k);
            }
        },
    }
}

proof fn lemma_trace_v(g: Seq<Seq<char>>, col: int, row: int, k: Corner)
    ensures
        trace_v(g, col, row, k) matches Some(r) ==> row <= r && 0 <= r < g.len() && (cell(g, r, col) matches Some(
            ch,
        ) && corner_matches(k, ch)),
    decreases g.len() - row,
{
    match cell(g, row, col) {
        None => {},
        Some(ch) => {
            if !corner_matches(k, ch) && is_vertical_border(ch) {
                lemma_trace_v(g, col, row + 1, k);
            }
        },
    }
}

proof fn lemma_right_extent(g: Seq<Seq<char>>, primary: int, alt: int, row: int, end: int)
    ensures
        right_extent(g, primary, alt, row, end) matches Some(m) ==> primary <= m && (m == primary
            || m < max_row_len(g)),
    decreases end - row,
{
    crate::grid::lemma_max_row_len(g);
    if row < end {
        lemma_right_extent(g, primary, alt, row + 1, end);
        match border_candidate(g, row, primary, alt) {
            None => {},
            Some(c) => {
                assert(cell(g, row, c) is Some);
                assert(0 <= row < g.len() && 0 <= c < g[row].len());
                assert(g[row].len() <= max_row_len(g));
            },
        }
    }
}

proof fn lemma_trace_box(g: Seq<Seq<char>>, top: int, left: int)
    requires
        grid_small(g),
    ensures
        trace_box_spec(g, top, left) matches Some(b) ==> traced_box_ok(g, b),
{
    crate::grid::lemma_max_row_len(g);
    lemma_trace_v(g, left, top + 1, Corner::BottomLeft);
    lemma_trace_h(g, top, left + 1, Corner::TopRight);
    if let Some(bottom) = trace_v(g, left, top + 1, Corner::BottomLeft) {
        lemma_trace_h(g, bottom, left + 1, Corner::BottomRight);
        if let Some(trc) = trace_h(g, top, left + 1, Corner::TopRight) {
            if let Some(brc) = trace_h(g, bottom, left + 1, Corner::BottomRight) {
                let right = if trc > brc { trc } else { brc };
                lemma_right_extent(g, right, trc, top + 1, bottom);
                assert(g[top].len() <= max_row_len(g));
                assert(g[bottom].len() <= max_row_len(g));
            }
        }
    }
}

proof fn lemma_boxes_in_row(g: Seq<Seq<char>>, row: int, col: int)
    requires
        grid_small(g),
    ensures
        forall|i: int| 0 <= i < boxes_in_row(g, row, col).len() ==> detected_box_ok(g, #[trigger] boxes_in_row(g, row, col)[i]),
    decreases max_row_len(g) - col,
{
    if col < max_row_len(g) {
        lemma_trace_box(g, row, col);
        lemma_boxes_in_row(g, row, col + 1);
        let here = match cell(g, row, col) {
            Some(ch) => if is_top_left_corner(ch) {
                match trace_box_spec(g, row, col) {
                    Some(b) => seq![b],
                    None => Seq::<BoxV>::empty(),
                }
            } else {
                Seq::<BoxV>::empty()
            },
            None => Seq::<BoxV>::empty(),
        };
        let all = boxes_in_row(g, row, col);
        assert(all == here + boxes_in_row(g, row, col + 1));
        assert forall|i: int| 0 <= i < all.len() implies detected_box_ok(g, #[trigger] all[i]) by {
            if i >= here.len() {
                assert(all[i] == boxes_in_row(g, row, col + 1)[i - here.len()]);
            }
        }
    }
}

proof fn lemma_boxes_from_row(g: Seq<Seq<char>>, row: int)
    requires
        grid_small(g),
    ensures
        forall|i: int| 0 <= i < boxes_from_row(g, row).len() ==> detected_box_ok(g, #[trigger] boxes_from_row(g, row)[i]),
    decreases g.len() - row,
{
    if row < g.len() {
        lemma_boxes_in_row(g, row, 0);
        lemma_boxes_from_row(g, row + 1);
        let a = boxes_in_row(g, row, 0);
        let all = boxes_from_row(g, row);
        assert forall|i: int| 0 <= i < all.len() implies detected_box_ok(g, #[trigger] all[i]) by {
            if i >= a.len() {
                assert(all[i] == boxes_from_row(g, row + 1)[i - a.len()]);
            }
        }
    }
}

/// The boxes come in row-major order of their top-left corners.
pub open spec fn row_major(bs: Seq<BoxV>) -> bool {
    forall|i: int, j: int|
        0 <= i < j < bs.len() ==> (#[trigger] bs[i]).top_left.0 < (#[trigger] bs[j]).top_left.0 || (
        bs[i].top_left.0 == bs[j].top_left.0 && bs[i].top_left.1 < bs[j].top_left.1)
}

proof fn lemma_boxes_in_row_order(g: Seq<Seq<char>>, row: int, col: int)
    requires
        grid_small(g),
        0 <= col,
    ensures
        forall|i: int| 0 <= i < boxes_in_row(g, row, col).len() ==> {
            let b = #[trigger] boxes_in_row(g, row, col)[i];
            b.top_left.0 == row && col <= b.top_left.1
        },
        row_major(boxes_in_row(g, row, col)),
    decreases max_row_len(g) - col,
{
    if col < max_row_len(g) {
        lemma_boxes_in_row_order(g, row, col + 1);
        let here = match cell(g, row, col) {
            Some(ch) => if is_top_left_corner(ch) {
                match trace_box_spec(g, row, col) {
                    Some(b) => seq![b],
                    None => Seq::<BoxV>::empty(),
                }
            } else {
                Seq::<BoxV>::empty()
            },
            None => Seq::<BoxV>::empty(),
        };
        let rest = boxes_in_row(g, row, col + 1);
        let all = boxes_in_row(g, row, col);
        assert(all == here + rest);
        if here.len() > 0 {
            assert(0 <= row < g.len());
            assert(here[0].top_left == (row as usize, col as usize));
        }
        assert forall|i: int| 0 <= i < all.len() implies {
            let b = #[trigger] all[i];
            b.top_left.0 == row && col <= b.top_left.1
        } by {
            if i >= here.len() {
                assert(all[i] == rest[i - here.len()]);
            } else {
                assert(all[i] == here[i]);
            }
        }
        assert forall|i: int, j: int| 0 <= i < j < all.len() implies (#[trigger] all[i]).top_left.0 < (
        #[trigger] all[j]).top_left.0 || (all[i].top_left.0 == all[j].top_left.0 && all[i].top_left.1
            < all[j].top_left.1) by {
            if i >= here.len() {
                assert(all[i] == rest[i - here.len()]);
                assert(all[j] == rest[j - here.len()]);
            } else {
                assert(all[i] == here[i]);
                assert(all[j] == rest[j - here.len()]);
                assert(rest[j - here.len()].top_left.1 >= col + 1);
            }
        }
    }
}

proof fn lemma_boxes_from_row_order(g: Seq<Seq<char>>, row: int)
    requires
        grid_small(g),
        0 <= row,
    ensures
        forall|i: int| 0 <= i < boxes_from_row(g, row).len() ==> (#[trigger] boxes_from_row(g, row)[i]).top_left.0 >= row,
        row_major(boxes_from_row(g, row)),
    decreases g.len() - row,
{
    if row < g.len() {
        lemma_boxes_in_row_order(g, row, 0);
        lemma_boxes_from_row_order(g, row + 1);
        let a = boxes_in_row(g, row, 0);
        let rest = boxes_from_row(g, row + 1);
        let all = boxes_from_row(g, row);
        assert(all == a + rest);
        assert forall|i: int| 0 <= i < all.len() implies (#[trigger] all[i]).top_left.0 >= row by {
            if i >= a.len() {
                assert(all[i] == rest[i - a.len()]);
            } else {
                assert(all[i] == a[i]);
            }
        }
        assert forall|i: int, j: int| 0 <= i < j < all.len() implies (#[trigger] all[i]).top_left.0 < (
        #[trigger] all[j]).top_left.0 || (all[i].top_left.0 == all[j].top_left.0 && all[i].top_left.1
            < all[j].top_left.1) by {
            if i >= a.len() {
                assert(all[i] == rest[i - a.len()]);
                assert(all[j] == rest[j - a.len()]);
            } else if j < a.len() {
                assert(all[i] == a[i]);
                assert(all[j] == a[j]);
            } else {
                assert(all[i] == a[i]);
                assert(all[j] == rest[j - a.len()]);
            }
        }
    }
}

/// The detector reports boxes in row-major order of their top-left
/// corners, no corner twice.
pub proof fn law_detected_boxes_in_order(g: Seq<Seq<char>>)
    requires
        grid_small(g),
    ensures
        row_major(detect_boxes_spec(g)),
{
    lemma_boxes_from_row_order(g, 0);
}

/// Every detected box has its corners in order, at least one interior
/// row and column, and lies inside the grid; its top-left cell holds a
/// top-left corner of the box's style and the cell below it, on the box's
/// bottom row, a bottom-left corner.
pub proof fn law_detected_boxes_well_formed(g: Seq<Seq<char>>)
    requires
        grid_small(g),
    ensures
        forall|i: int| 0 <= i < detect_boxes_spec(g).len() ==> detected_box_ok(g, #[trigger] detect_boxes_spec(g)[i]),
{
    lemma_boxes_from_row(g, 0);
}

/// Detects rectangular boxes in ASCII diagrams using corner-tracing.
pub struct BoxDetector<'a> {
    grid: &'a Grid,
}

impl<'a> BoxDetector<'a> {
    /// The grid being scanned.
    pub closed spec fn grid_view(&self) -> Seq<Seq<char>> {
        self.grid@
    }

    /// Create a new box detector for a grid.
    pub fn new(grid: &'a Grid) -> (d: Self)
        ensures
            d.grid_view() == grid@,
    {
        BoxDetector { grid }
    }

    /// Detect all rectangular boxes in the grid: scan for top-left corners
    /// (┌, ╔, ╭) in row-major order and keep each one whose walls close.
    pub fn detect(self) -> (r: Vec<Box>)
        requires
            grid_small(self.grid_view()),
        ensures
            r@.map_values(|b: Box| b@) == detect_boxes_spec(self.grid_view()),
    {
        let ghost g = self.grid@;
        let mut boxes: Vec<Box> = Vec::new();
        let h = self.grid.height();
        let mut row: usize = 0;
        while row < h
            invariant
                g == self.grid@,
                grid_small(g),
                h == g.len(),
                row <= h,
                detect_boxes_spec(g) == boxes@.map_values(|b: Box| b@) + boxes_from_row(g, row as int),
            decreases h - row,
        {
            let row_boxes = self.detect_row(row);
            crate::primitives::append_boxes(&mut boxes, &row_boxes);
            assert(boxes_from_row(g, row as int) == boxes_in_row(g, row as int, 0) + boxes_from_row(g, row + 1));
            assert(detect_boxes_spec(g) =~= boxes@.map_values(|b: Box| b@) + boxes_from_row(g, row + 1));
            row += 1;
        }
        boxes
    }

    /// Boxes whose top-left corner lies on `row`, left to right.
    fn detect_row(&self, row: usize) -> (r: Vec<Box>)
        requires
            row < self.grid@.len(),
            grid_small(self.grid@),
        ensures
            r@.map_values(|b: Box| b@) == boxes_in_row(self.grid@, row as int, 0),
    {
        let ghost g = self.grid@;
        let w = self.grid.width();
        let mut boxes: Vec<Box> = Vec::new();
        let mut col: usize = 0;
        while col < w
            invariant
                g == self.grid@,
                grid_small(g),
                row < g.len(),
                w == max_row_len(g),
                col <= w,
                boxes_in_row(g, row as int, 0) == boxes@.map_values(|b: Box| b@) + boxes_in_row(g, row as int, col as int),
            decreases w - col,
        {
            let ghost before = boxes@.map_values(|b: Box| b@);
            if let Some(ch) = self.grid.get(row, col) {
                if top_left_corner(ch) {
                    if let Some(b) = self.trace_box(row, col, ch) {
                        boxes.push(b);
                        assert(boxes@.map_values(|b: Box| b@) =~= before + seq![b@]);
                    }
                }
            }
            assert(boxes_in_row(g, row as int, 0) =~= boxes@.map_values(|b: Box| b@) + boxes_in_row(g, row as int, col + 1));
            col += 1;
        }
        boxes
    }

    /// Trace a rectangle starting from a top-left corner at (row, col),
    /// using both the top-left and bottom-left anchors to tolerate a right
    /// edge that is off by one column between top and bottom.
    fn trace_box(&self, top_row: usize, left_col: usize, tl_char: char) -> (r: Option<Box>)
        requires
            cell(self.grid@, top_row as int, left_col as int) == Some(tl_char),
            grid_small(self.grid@),
        ensures
            match r {
                Some(b) => trace_box_spec(self.grid@, top_row as int, left_col as int) == Some(b@),
                None => trace_box_spec(self.grid@, top_row as int, left_col as int) is None,
            },
    {
        let ghost g = self.grid@;
        proof { crate::grid::lemma_max_row_len(g); }
        let style = match BoxStyle::from_corner(tl_char) {
            Some(s) => s,
            None => return None,
        };
        let bottom_row = match self.trace_vertical(left_col, top_row + 1, Corner::BottomLeft) {
            Some(r) => r,
            None => return None,
        };
        let top_right_col = match self.trace_horizontal(top_row, left_col + 1, Corner::TopRight) {
            Some(c) => c,
            None => return None,
        };
        let bottom_right_col = match self.trace_horizontal(bottom_row, left_col + 1, Corner::BottomRight) {
            Some(c) => c,
            None => return None,
        };
        let right_col = if top_right_col > bottom_right_col { top_right_col } else { bottom_right_col };
        let actual_right_col = match self.find_right_border_extent(right_col, top_right_col, top_row + 1, bottom_row) {
            Some(c) => c,
            None => return None,
        };
        Some(Box {
            top_left: (top_row, left_col),
            bottom_right: (bottom_row, if actual_right_col > right_col { actual_right_col } else { right_col }),
            style,
            parent_idx: None,
            child_indices: Vec::new(),
        })
    }

    /// Walk right from (row, start_col) to the target corner.
    fn trace_horizontal(&self, row: usize, start_col: usize, k: Corner) -> (r: Option<usize>)
        requires
            grid_small(self.grid@),
            start_col <= crate::primitives::MAX_COORD,
        ensures
            match r {
                Some(c) => trace_h(self.grid@, row as int, start_col as int, k) == Some(c as int)
                    && c < max_row_len(self.grid@),
                None => trace_h(self.grid@, row as int, start_col as int, k) is None,
            },
    {
        let ghost g = self.grid@;
        proof { crate::grid::lemma_max_row_len(g); }
        let mut col = start_col;
        loop
            invariant
                g == self.grid@,
                grid_small(g),
                start_col <= col,
                col <= max_row_len(g) + crate::primitives::MAX_COORD,
                trace_h(g, row as int, start_col as int, k) == trace_h(g, row as int, col as int, k),
            decreases max_row_len(g) + crate::primitives::MAX_COORD - col,
        {
            let ch = match self.grid.get(row, col) {
                Some(c) => c,
                None => return None,
            };
            proof { crate::grid::lemma_max_row_len(g); }
            assert(g[row as int].len() <= max_row_len(g));
            if corner_test(&k, ch) {
                return Some(col);
            }
            if !horizontal_border(ch) {
                return None;
            }
            col += 1;
        }
    }

    /// Walk down from (start_row, col) to the target corner.
    fn trace_vertical(&self, col: usize, start_row: usize, k: Corner) -> (r: Option<usize>)
        requires
            grid_small(self.grid@),
            start_row <= crate::primitives::MAX_COORD,
        ensures
            match r {
                Some(row) => trace_v(self.grid@, col as int, start_row as int, k) == Some(row as int)
                    && row < self.grid@.len(),
                None => trace_v(self.grid@, col as int, start_row as int, k) is None,
            },
    {
        let ghost g = self.grid@;
        let mut row = start_row;
        loop
            invariant
                g == self.grid@,
                grid_small(g),
                start_row <= row,
                row <= g.len() + crate::primitives::MAX_COORD,
                trace_v(g, col as int, start_row as int, k) == trace_v(g, col as int, row as int, k),
            decreases g.len() + crate::primitives::MAX_COORD - row,
        {
            let ch = match self.grid.get(row, col) {
                Some(c) => c,
                None => return None,
            };
            if corner_test(&k, ch) {
                return Some(row);
            }
            if !vertical_border(ch) {
                return None;
            }
            row += 1;
        }
    }

    /// Whether (row, col) holds a vertical border character.
    fn vb_at(&self, row: usize, col: usize) -> (b: bool)
        ensures
            b == (cell(self.grid@, row as int, col as int) matches Some(ch) && is_vertical_border(ch)),
    {
        match self.grid.get(row, col) {
            Some(ch) => vertical_border(ch),
            None => false,
        }
    }

    /// Verify a right border near `primary_col` on each row of
    /// `[start_row, end_row)` and return the largest column where one was found.
    fn find_right_border_extent(
        &self,
        primary_col: usize,
        alt_col: usize,
        start_row: usize,
        end_row: usize,
    ) -> (r: Option<usize>)
        requires
            primary_col < crate::primitives::MAX_COORD,
            alt_col < crate::primitives::MAX_COORD,
        ensures
            match r {
                Some(c) => right_extent(self.grid@, primary_col as int, alt_col as int, start_row as int, end_row as int) == Some(c as int),
                None => right_extent(self.grid@, primary_col as int, alt_col as int, start_row as int, end_row as int) is None,
            },
    {
        let ghost g = self.grid@;
        // Rows are checked from the last one up, so that the running maximum
        // is that of the rows already behind.
        let mut max_col = primary_col;
        let mut row = end_row;
        if start_row >= end_row {
            return Some(primary_col);
        }
        while row > start_row
            invariant
                start_row <= row <= end_row,
                primary_col < crate::primitives::MAX_COORD,
                alt_col < crate::primitives::MAX_COORD,
                max_col <= crate::primitives::MAX_COORD,
                right_extent(g, primary_col as int, alt_col as int, row as int, end_row as int) == Some(max_col as int),
                g == self.grid@,
            decreases row - start_row,
        {
            let r = row - 1;
            let found = if self.vb_at(r, primary_col) {
                Some(primary_col)
            } else if alt_col != primary_col && self.vb_at(r, alt_col) {
                Some(alt_col)
            } else if primary_col >= 1 && self.vb_at(r, primary_col - 1) {
                Some(primary_col - 1)
            } else if self.vb_at(r, primary_col + 1) {
                Some(primary_col + 1)
            } else {
                None
            };
            assert(match found {
                Some(c) => border_candidate(g, r as int, primary_col as int, alt_col as int) == Some(c as int),
                None => border_candidate(g, r as int, primary_col as int, alt_col as int) is None,
            });
            match found {
                None => {
                    proof { lemma_right_extent_none(g, primary_col as int, alt_col as int, start_row as int, r as int, end_row as int); }
                    return None;
                },
                Some(c) => {
                    if c > max_col {
                        max_col = c;
                    }
                },
            }
            row = r;
        }
        Some(max_col)
    }
}

/// Convenience function to detect boxes in a grid.
pub fn detect_boxes(grid: &Grid) -> (r: Vec<Box>)
    requires
        grid_small(grid@),
    ensures
        r@.map_values(|b: Box| b@) == detect_boxes_spec(grid@),
{
    BoxDetector::new(grid).detect()
}

} // verus!
