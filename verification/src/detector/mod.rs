//! Diagram element detection.

pub mod arrows;
pub mod boxes;

pub use self::arrows::{detect_horizontal_arrows, detect_vertical_arrows};
pub use self::boxes::detect_boxes;

use vstd::prelude::*;
use crate::grid::{cell, max_row_len, Grid};
use crate::primitives::{
    is_box_char, is_box_char_spec, copy_boxes, copy_vec, Box, BoxV, HorizontalArrow, InventoryV,
    Label, LabelAttachment, LabelV, PrimitiveInventory, TextRow, TextRowV, VerticalArrow,
};
use crate::text::{byte_len, chars_of, is_blank, is_blank_vec, string_of, char_width};
use self::arrows::{detect_horizontal_arrows_spec, detect_vertical_arrows_spec};
use self::boxes::{detect_boxes_spec, grid_small};

verus! {

// ---------------------------------------------------------------------
// Box content
// ---------------------------------------------------------------------

/// The characters of grid row `row` strictly between columns `left` and
/// `right` that exist in the grid.
pub open spec fn box_line(g: Seq<Seq<char>>, row: int, left: int, right: int) -> Seq<char> {
    if 0 <= row < g.len() {
        let hi = if right < g[row].len() { right } else { g[row].len() as int };
        if left + 1 < hi {
            g[row].subrange(left + 1, hi)
        } else {
            Seq::empty()
        }
    } else {
        Seq::empty()
    }
}

/// The interior lines of a box: one per row strictly between its top and
/// bottom borders.
pub open spec fn box_content(g: Seq<Seq<char>>, b: BoxV) -> Seq<Seq<char>> {
    let n = b.bottom_right.0 - b.top_left.0 - 1;
    Seq::new(
        if n > 0 { n as nat } else { 0 },
        |i: int| box_line(g, b.top_left.0 + 1 + i, b.top_left.1 as int, b.bottom_right.1 as int),
    )
}

/// Extract text rows from inside a box: the content of the interior rows
/// between the top and bottom borders.
pub fn extract_box_content(grid: &Grid, b: &Box) -> (r: Vec<String>)
    ensures
        r@.len() == box_content(grid@, b@).len(),
        forall|i: int| 0 <= i < r@.len() ==> (#[trigger] r@[i])@ == box_content(grid@, b@)[i],
{
    let ghost g = grid@;
    let mut content: Vec<String> = Vec::new();
    if b.top_left.0 >= b.bottom_right.0 {
        return content;
    }
    let mut row = b.top_left.0 + 1;
    while row < b.bottom_right.0
        invariant
            g == grid@,
            b.top_left.0 < row <= b.bottom_right.0,
            content@.len() == row - b.top_left.0 - 1,
            forall|i: int| 0 <= i < content@.len() ==> (#[trigger] content@[i])@ == box_line(
                g,
                b.top_left.0 + 1 + i,
                b.top_left.1 as int,
                b.bottom_right.1 as int,
            ),
        decreases b.bottom_right.0 - row,
    {
        let mut line: Vec<char> = Vec::new();
        if b.top_left.1 < usize::MAX {
            let mut col = b.top_left.1 + 1;
            while col < b.bottom_right.1
                invariant
                    g == grid@,
                    b.top_left.1 < col,
                    col <= b.bottom_right.1 || col == b.top_left.1 + 1,
                    line@ == box_line(g, row as int, b.top_left.1 as int, col as int),
                decreases b.bottom_right.1 - col,
            {
                if let Some(ch) = grid.get(row, col) {
                    line.push(ch);
                }
                assert(line@ =~= box_line(g, row as int, b.top_left.1 as int, col + 1));
                col += 1;
            }
            assert(line@ =~= box_line(g, row as int, b.top_left.1 as int, b.bottom_right.1 as int));
        }
        content.push(string_of(&line));
        row += 1;
    }
    content
}

// ---------------------------------------------------------------------
// Labels
// ---------------------------------------------------------------------

/// (r, c) lies in the rectangle of the box, border included.
pub open spec fn covers_box(b: BoxV, r: int, c: int) -> bool {
    b.top_left.0 <= r <= b.bottom_right.0 && b.top_left.1 <= c <= b.bottom_right.1
}

/// (r, c) lies on the horizontal arrow.
pub open spec fn covers_harrow(a: HorizontalArrow, r: int, c: int) -> bool {
    a.row == r && a.start_col <= c <= a.end_col
}

/// (r, c) lies on the vertical arrow.
pub open spec fn covers_varrow(a: VerticalArrow, r: int, c: int) -> bool {
    a.col == c && a.start_row <= r <= a.end_row
}

/// (r, c) is one of the first `byte_len(content)` columns of the text row
/// from its start, and not past its end column.
pub open spec fn covers_text(t: TextRowV, r: int, c: int) -> bool {
    t.row == r && t.start_col <= c && c - t.start_col < byte_len(t.content) && c <= t.end_col
}

/// A cell taken by a box, an arrow or a text row of the inventory.
pub open spec fn occupied(inv: InventoryV, r: int, c: int) -> bool {
    ||| exists|i: int| 0 <= i < inv.boxes.len() && #[trigger] covers_box(inv.boxes[i], r, c)
    ||| exists|i: int| 0 <= i < inv.horizontal_arrows.len() && #[trigger] covers_harrow(inv.horizontal_arrows[i], r, c)
    ||| exists|i: int| 0 <= i < inv.vertical_arrows.len() && #[trigger] covers_varrow(inv.vertical_arrows[i], r, c)
    ||| exists|i: int| 0 <= i < inv.text_rows.len() && #[trigger] covers_text(inv.text_rows[i], r, c)
}

/// How far `x` lies outside `[lo, hi]`: 0 inside.
pub open spec fn gap(x: int, lo: int, hi: int) -> int {
    if x < lo {
        lo - x
    } else if x > hi {
        x - hi
    } else {
        0
    }
}

/// The distance in cells from (row, col) to a box: the larger of the row
/// gap and the column gap, 0 on or inside the box.
pub open spec fn box_distance(b: BoxV, row: int, col: int) -> int {
    let dr = gap(row, b.top_left.0 as int, b.bottom_right.0 as int);
    let dc = gap(col, b.top_left.1 as int, b.bottom_right.1 as int);
    if dr >= dc { dr } else { dc }
}

/// The search over the first `n` boxes: the first box at the least
/// distance within 2, with its distance, and whether another box lies at
/// that same distance (a tie).
pub open spec fn nearest_box_state(inv: InventoryV, row: int, col: int, n: int) -> (Option<(LabelAttachment, int)>, bool)
    decreases n,
{
    if n <= 0 {
        (None, false)
    } else {
        let (prev, tie) = nearest_box_state(inv, row, col, n - 1);
        let d = box_distance(inv.boxes[n - 1], row, col);
        if d <= 2 {
            match prev {
                Some((a, m)) => if d < m {
                    (Some((LabelAttachment::Box((n - 1) as usize), d)), false)
                } else if d == m {
                    (prev, true)
                } else {
                    (prev, tie)
                },
                None => (Some((LabelAttachment::Box((n - 1) as usize), d)), false),
            }
        } else {
            (prev, tie)
        }
    }
}

/// The nearest box within distance 2 of (row, col), with its distance;
/// none when two boxes are equally near (ambiguous).
pub open spec fn nearest_box(inv: InventoryV, row: int, col: int, n: int) -> Option<(LabelAttachment, int)> {
    let (c, tie) = nearest_box_state(inv, row, col, n);
    if tie {
        None
    } else {
        c
    }
}

/// `|a - b|`.
pub open spec fn abs_diff(a: int, b: int) -> int {
    if a >= b {
        a - b
    } else {
        b - a
    }
}

/// The box choice refined by the first `n` vertical arrows: an arrow within
/// 4 columns is taken over a box when within 3 columns, and over an arrow
/// when strictly closer.
pub open spec fn nearest_with_arrows(inv: InventoryV, row: int, col: int, n: int) -> Option<(LabelAttachment, int)>
    decreases n,
{
    if n <= 0 {
        nearest_box(inv, row, col, inv.boxes.len() as int)
    } else {
        let prev = nearest_with_arrows(inv, row, col, n - 1);
        let cd = abs_diff(inv.vertical_arrows[n - 1].col as int, col);
        if cd <= 4 {
            match prev {
                Some((a, m)) => {
                    let prefer = match a {
                        LabelAttachment::Box(_) => cd <= 3,
                        _ => cd < m,
                    };
                    if prefer {
                        Some((LabelAttachment::VerticalArrow((n - 1) as usize), cd))
                    } else {
                        prev
                    }
                },
                None => Some((LabelAttachment::VerticalArrow((n - 1) as usize), cd)),
            }
        } else {
            prev
        }
    }
}

/// The primitive a label at (row, col) attaches to.
pub open spec fn nearest_primitive(inv: InventoryV, row: int, col: int) -> Option<LabelAttachment> {
    match nearest_with_arrows(inv, row, col, inv.vertical_arrows.len() as int) {
        Some((a, _)) => Some(a),
        None => None,
    }
}

/// Offset of a label from the centre of its box (0 for other attachments).
pub open spec fn label_offset(inv: InventoryV, row: int, col: int, a: LabelAttachment) -> (isize, isize) {
    match a {
        LabelAttachment::Box(idx) => if idx < inv.boxes.len() {
            let b = inv.boxes[idx as int];
            (
                (row - (b.top_left.0 + b.bottom_right.0) / 2) as isize,
                (col - (b.top_left.1 + b.bottom_right.1) / 2) as isize,
            )
        } else {
            (0, 0)
        },
        _ => (0, 0),
    }
}

/// The label (if any) for a finished run of candidate text that began at
/// `start` on `row`: it needs more than one byte and a nearby primitive.
pub open spec fn label_emit(inv: InventoryV, row: int, start: Option<int>, text: Seq<char>) -> Seq<LabelV> {
    match start {
        Some(s) => if text.len() > 0 && byte_len(text) > 1 {
            match nearest_primitive(inv, row, s) {
                Some(a) => seq![LabelV {
                    row: row as usize,
                    col: s as usize,
                    content: text,
                    attached_to: a,
                    offset: label_offset(inv, row, s, a),
                }],
                None => Seq::empty(),
            }
        } else {
            Seq::empty()
        },
        None => Seq::empty(),
    }
}

/// A cell that may belong to a label: free, not a box character, not a space.
pub open spec fn label_cell(inv: InventoryV, r: int, c: int, ch: char) -> bool {
    !occupied(inv, r, c) && !is_box_char_spec(ch) && ch != ' '
}

/// Labels of row `row` from column `col`, given the run of label cells
/// collected so far (its start and text).
pub open spec fn labels_scan(
    g: Seq<Seq<char>>,
    inv: InventoryV,
    row: int,
    col: int,
    start: Option<int>,
    text: Seq<char>,
) -> Seq<LabelV>
    decreases max_row_len(g) - col,
{
    if col >= max_row_len(g) || col < 0 {
        label_emit(inv, row, start, text)
    } else {
        match cell(g, row, col) {
            None => labels_scan(g, inv, row, col + 1, start, text),
            Some(ch) => if label_cell(inv, row, col, ch) {
                labels_scan(g, inv, row, col + 1, if start is Some { start } else { Some(col) }, text.push(ch))
            } else {
                label_emit(inv, row, start, text) + labels_scan(g, inv, row, col + 1, None, Seq::empty())
            },
        }
    }
}

/// Labels of rows `row..`.
pub open spec fn labels_from_row(g: Seq<Seq<char>>, inv: InventoryV, row: int) -> Seq<LabelV>
    decreases g.len() - row,
{
    if row >= g.len() || row < 0 {
        Seq::empty()
    } else {
        labels_scan(g, inv, row, 0, None, Seq::empty()) + labels_from_row(g, inv, row + 1)
    }
}

/// All labels of a grid: runs of free, non-border, non-space cells longer
/// than one byte, each attached to its nearest primitive.
pub open spec fn detect_labels_spec(g: Seq<Seq<char>>, inv: InventoryV) -> Seq<LabelV> {
    labels_from_row(g, inv, 0)
}

/// A label as the detector places it: more than one byte of text; when
/// attached to a box, that box lies within 2 cells and every other box is
/// strictly further; when attached to a vertical arrow, the arrow's column
/// is within 4 columns.
pub open spec fn label_placed(inv: InventoryV, l: LabelV) -> bool {
    &&& byte_len(l.content) > 1
    &&& l.attached_to matches LabelAttachment::Box(j) ==> {
        &&& j < inv.boxes.len()
        &&& box_distance(inv.boxes[j as int], l.row as int, l.col as int) <= 2
        &&& forall|i: int|
            0 <= i < inv.boxes.len() && i != j ==> box_distance(#[trigger] inv.boxes[i], l.row as int, l.col as int)
                > box_distance(inv.boxes[j as int], l.row as int, l.col as int)
    }
    &&& l.attached_to matches LabelAttachment::VerticalArrow(j) ==> j < inv.vertical_arrows.len()
        && abs_diff(inv.vertical_arrows[j as int].col as int, l.col as int) <= 4
    &&& !(l.attached_to is HorizontalArrow)
}

proof fn lemma_nearest_box_state(inv: InventoryV, row: int, col: int, n: int)
    requires
        0 <= n <= inv.boxes.len(),
        inv.boxes.len() <= usize::MAX,
    ensures
        ({
            let (c, tie) = nearest_box_state(inv, row, col, n);
            match c {
                Some((a, m)) => a matches LabelAttachment::Box(j) && j < n && m == box_distance(
                    inv.boxes[j as int],
                    row,
                    col,
                ) && m <= 2 && forall|i: int|
                    0 <= i < n ==> box_distance(#[trigger] inv.boxes[i], row, col) >= m && (i != j
                        && box_distance(inv.boxes[i], row, col) == m ==> tie),
                None => !tie && forall|i: int| 0 <= i < n ==> box_distance(#[trigger] inv.boxes[i], row, col) > 2,
            }
        }),
    decreases n,
{
    if n > 0 {
        lemma_nearest_box_state(inv, row, col, n - 1);
        let (prev, tie) = nearest_box_state(inv, row, col, n - 1);
        assert(((n - 1) as usize) as int == n - 1);
        let (c, t) = nearest_box_state(inv, row, col, n);
        if let Some((a, m)) = c {
            if let LabelAttachment::Box(j) = a {
                assert forall|i: int| 0 <= i < n implies box_distance(#[trigger] inv.boxes[i], row, col) >= m && (
                i != j && box_distance(inv.boxes[i], row, col) == m ==> t) by {
                    if i < n - 1 {
                        if let Some((a0, m0)) = prev {
                            assert(box_distance(inv.boxes[i], row, col) >= m0);
                        } else {
                            assert(box_distance(inv.boxes[i], row, col) > 2);
                        }
                    }
                }
            }
        }
    }
}

proof fn lemma_nearest_with_arrows(inv: InventoryV, row: int, col: int, n: int)
    requires
        0 <= n <= inv.vertical_arrows.len(),
        inv.vertical_arrows.len() <= usize::MAX,
        inv.boxes.len() <= usize::MAX,
    ensures
        match nearest_with_arrows(inv, row, col, n) {
            Some((LabelAttachment::Box(j), m)) => nearest_box(inv, row, col, inv.boxes.len() as int) == Some(
                (LabelAttachment::Box(j), m),
            ),
            Some((LabelAttachment::VerticalArrow(j), m)) => j < n && m == abs_diff(
                inv.vertical_arrows[j as int].col as int,
                col,
            ) && m <= 4,
            Some((LabelAttachment::HorizontalArrow(_), _)) => false,
            None => true,
        },
    decreases n,
{
    if n > 0 {
        lemma_nearest_with_arrows(inv, row, col, n - 1);
        assert(((n - 1) as usize) as int == n - 1);
    } else {
        lemma_nearest_box_state(inv, row, col, inv.boxes.len() as int);
    }
}

proof fn lemma_label_emit(inv: InventoryV, row: int, start: Option<int>, text: Seq<char>)
    requires
        inv.vertical_arrows.len() <= usize::MAX,
        inv.boxes.len() <= usize::MAX,
        0 <= row <= usize::MAX,
        start matches Some(s) ==> 0 <= s <= usize::MAX,
    ensures
        forall|i: int| 0 <= i < label_emit(inv, row, start, text).len() ==> label_placed(
            inv,
            #[trigger] label_emit(inv, row, start, text)[i],
        ),
{
    if let Some(s) = start {
        lemma_nearest_with_arrows(inv, row, s, inv.vertical_arrows.len() as int);
        lemma_nearest_box_state(inv, row, s, inv.boxes.len() as int);
    }
}

proof fn lemma_labels_scan(
    g: Seq<Seq<char>>,
    inv: InventoryV,
    row: int,
    col: int,
    start: Option<int>,
    text: Seq<char>,
)
    requires
        inv.vertical_arrows.len() <= usize::MAX,
        inv.boxes.len() <= usize::MAX,
        0 <= row <= usize::MAX,
        max_row_len(g) <= usize::MAX,
        start matches Some(s) ==> 0 <= s < max_row_len(g),
    ensures
        forall|i: int| 0 <= i < labels_scan(g, inv, row, col, start, text).len() ==> label_placed(
            inv,
            #[trigger] labels_scan(g, inv, row, col, start, text)[i],
        ),
    decreases max_row_len(g) - col,
{
    if col >= max_row_len(g) || col < 0 {
        lemma_label_emit(inv, row, start, text);
    } else {
        match cell(g, row, col) {
            None => {
                lemma_labels_scan(g, inv, row, col + 1, start, text);
                assert(labels_scan(g, inv, row, col, start, text) == labels_scan(g, inv, row, col + 1, start, text));
            },
            Some(ch) => if label_cell(inv, row, col, ch) {
                let st = if start is Some { start } else { Some(col) };
                lemma_labels_scan(g, inv, row, col + 1, st, text.push(ch));
                assert(labels_scan(g, inv, row, col, start, text) == labels_scan(g, inv, row, col + 1, st, text.push(ch)));
            } else {
                lemma_label_emit(inv, row, start, text);
                lemma_labels_scan(g, inv, row, col + 1, None, Seq::empty());
                let a = label_emit(inv, row, start, text);
                let b = labels_scan(g, inv, row, col + 1, None, Seq::empty());
                assert forall|i: int| 0 <= i < (a + b).len() implies label_placed(inv, #[trigger] (a + b)[i]) by {
                    if i < a.len() {
                        assert((a + b)[i] == a[i]);
                    } else {
                        assert((a + b)[i] == b[i - a.len()]);
                    }
                }
            },
        }
    }
}

proof fn lemma_labels_from_row(g: Seq<Seq<char>>, inv: InventoryV, row: int)
    requires
        inv.vertical_arrows.len() <= usize::MAX,
        inv.boxes.len() <= usize::MAX,
        0 <= row,
        g.len() <= usize::MAX,
        max_row_len(g) <= usize::MAX,
    ensures
        forall|i: int| 0 <= i < labels_from_row(g, inv, row).len() ==> label_placed(
            inv,
            #[trigger] labels_from_row(g, inv, row)[i],
        ),
    decreases g.len() - row,
{
    if row < g.len() {
        lemma_labels_scan(g, inv, row, 0, None, Seq::empty());
        lemma_labels_from_row(g, inv, row + 1);
        let a = labels_scan(g, inv, row, 0, None, Seq::empty());
        let b = labels_from_row(g, inv, row + 1);
        assert forall|i: int| 0 <= i < (a + b).len() implies label_placed(inv, #[trigger] (a + b)[i]) by {
            if i < a.len() {
                assert((a + b)[i] == a[i]);
            } else {
                assert((a + b)[i] == b[i - a.len()]);
            }
        }
    }
}

/// Every label the detector reports holds more than one byte of text and
/// sits near what it is attached to: a box within 2 cells that is strictly
/// nearer than every other box (equally near boxes attach nothing), or a
/// vertical arrow within 4 columns.
pub proof fn law_labels_are_near_their_primitive(g: Seq<Seq<char>>, inv: InventoryV)
    requires
        inv.vertical_arrows.len() <= usize::MAX,
        inv.boxes.len() <= usize::MAX,
        g.len() <= usize::MAX,
        max_row_len(g) <= usize::MAX,
    ensures
        forall|i: int| 0 <= i < detect_labels_spec(g, inv).len() ==> label_placed(
            inv,
            #[trigger] detect_labels_spec(g, inv)[i],
        ),
{
    lemma_labels_from_row(g, inv, 0);
}

/// Every box coordinate of the inventory fits the geometry bound.
pub open spec fn boxes_small(boxes: Seq<BoxV>) -> bool {
    forall|i: int| 0 <= i < boxes.len() ==> {
        &&& crate::primitives::small((#[trigger] boxes[i]).bottom_right.0 as int)
        &&& crate::primitives::small(boxes[i].bottom_right.1 as int)
        &&& boxes[i].top_left.0 <= boxes[i].bottom_right.0
        &&& boxes[i].top_left.1 <= boxes[i].bottom_right.1
    }
}

/// The byte length of `v` exceeds `k`.
fn byte_len_exceeds(v: &Vec<char>, k: usize) -> (b: bool)
    ensures
        b == (byte_len(v@) > k),
{
    let mut n: u128 = 0;
    let mut i: usize = 0;
    while i < v.len()
        invariant
            i <= v.len(),
            n == byte_len(v@.take(i as int)),
            n <= 4 * i,
        decreases v.len() - i,
    {
        proof {
            assert(v@.take(i + 1).drop_last() =~= v@.take(i as int));
        }
        n = n + char_width(v[i]) as u128;
        i += 1;
    }
    assert(v@.take(i as int) =~= v@);
    n > k as u128
}

/// Whether (r, c) is taken by a primitive of the inventory.
fn is_occupied(inv: &PrimitiveInventory, r: usize, c: usize) -> (b: bool)
    ensures
        b == occupied(inv@, r as int, c as int),
{
    let ghost iv = inv@;
    let mut i: usize = 0;
    while i < inv.boxes.len()
        invariant
            iv == inv@,
            i <= inv.boxes@.len(),
            forall|k: int| 0 <= k < i ==> !#[trigger] covers_box(iv.boxes[k], r as int, c as int),
        decreases inv.boxes@.len() - i,
    {
        let b = &inv.boxes[i];
        assert(iv.boxes[i as int] == b@);
        if r >= b.top_left.0 && r <= b.bottom_right.0 && c >= b.top_left.1 && c <= b.bottom_right.1 {
            assert(covers_box(iv.boxes[i as int], r as int, c as int));
            return true;
        }
        i += 1;
    }
    let mut i: usize = 0;
    while i < inv.horizontal_arrows.len()
        invariant
            iv == inv@,
            i <= inv.horizontal_arrows@.len(),
            forall|k: int| 0 <= k < iv.boxes.len() ==> !#[trigger] covers_box(iv.boxes[k], r as int, c as int),
            forall|k: int| 0 <= k < i ==> !#[trigger] covers_harrow(iv.horizontal_arrows[k], r as int, c as int),
        decreases inv.horizontal_arrows@.len() - i,
    {
        let a = &inv.horizontal_arrows[i];
        if a.row == r && c >= a.start_col && c <= a.end_col {
            assert(covers_harrow(iv.horizontal_arrows[i as int], r as int, c as int));
            return true;
        }
        i += 1;
    }
    let mut i: usize = 0;
    while i < inv.vertical_arrows.len()
        invariant
            iv == inv@,
            i <= inv.vertical_arrows@.len(),
            forall|k: int| 0 <= k < iv.boxes.len() ==> !#[trigger] covers_box(iv.boxes[k], r as int, c as int),
            forall|k: int| 0 <= k < iv.horizontal_arrows.len() ==> !#[trigger] covers_harrow(iv.horizontal_arrows[k], r as int, c as int),
            forall|k: int| 0 <= k < i ==> !#[trigger] covers_varrow(iv.vertical_arrows[k], r as int, c as int),
        decreases inv.vertical_arrows@.len() - i,
    {
        let a = &inv.vertical_arrows[i];
        if a.col == c && r >= a.start_row && r <= a.end_row {
            assert(covers_varrow(iv.vertical_arrows[i as int], r as int, c as int));
            return true;
        }
        i += 1;
    }
    let mut i: usize = 0;
    while i < inv.text_rows.len()
        invariant
            iv == inv@,
            i <= inv.text_rows@.len(),
            forall|k: int| 0 <= k < iv.boxes.len() ==> !#[trigger] covers_box(iv.boxes[k], r as int, c as int),
            forall|k: int| 0 <= k < iv.horizontal_arrows.len() ==> !#[trigger] covers_harrow(iv.horizontal_arrows[k], r as int, c as int),
            forall|k: int| 0 <= k < iv.vertical_arrows.len() ==> !#[trigger] covers_varrow(iv.vertical_arrows[k], r as int, c as int),
            forall|k: int| 0 <= k < i ==> !#[trigger] covers_text(iv.text_rows[k], r as int, c as int),
        decreases inv.text_rows@.len() - i,
    {
        let t = &inv.text_rows[i];
        assert(iv.text_rows[i as int] == t@);
        if t.row == r && c >= t.start_col && c <= t.end_col {
            let content = chars_of(t.content.as_str());
            if byte_len_exceeds(&content, c - t.start_col) {
                assert(covers_text(iv.text_rows[i as int], r as int, c as int));
                return true;
            }
        }
        i += 1;
    }
    false
}

fn gap_exec(x: usize, lo: usize, hi: usize) -> (d: usize)
    ensures
        d == gap(x as int, lo as int, hi as int),
{
    if x < lo {
        lo - x
    } else if x > hi {
        x - hi
    } else {
        0
    }
}

/// Distance in cells from a position to a box.
fn box_distance_exec(b: &Box, row: usize, col: usize) -> (d: usize)
    ensures
        d == box_distance(b@, row as int, col as int),
{
    let dr = gap_exec(row, b.top_left.0, b.bottom_right.0);
    let dc = gap_exec(col, b.top_left.1, b.bottom_right.1);
    if dr >= dc { dr } else { dc }
}

/// Find the nearest primitive to a label position.
fn find_nearest_primitive(row: usize, col: usize, inventory: &PrimitiveInventory) -> (r: Option<LabelAttachment>)
    ensures
        r == nearest_primitive(inventory@, row as int, col as int),
{
    let ghost iv = inventory@;
    let mut nearest: Option<(LabelAttachment, usize)> = None;
    let mut tie = false;
    let mut idx: usize = 0;
    while idx < inventory.boxes.len()
        invariant
            iv == inventory@,
            idx <= inventory.boxes@.len(),
            nearest_box_state(iv, row as int, col as int, idx as int).1 == tie,
            match nearest {
                Some((a, m)) => nearest_box_state(iv, row as int, col as int, idx as int).0 == Some((a, m as int)),
                None => nearest_box_state(iv, row as int, col as int, idx as int).0 is None,
            },
        decreases inventory.boxes@.len() - idx,
    {
        assert(iv.boxes[idx as int] == inventory.boxes@[idx as int]@);
        let min_distance = box_distance_exec(&inventory.boxes[idx], row, col);
        if min_distance <= 2 {
            match nearest {
                Some((_, current_min)) => {
                    if min_distance < current_min {
                        nearest = Some((LabelAttachment::Box(idx), min_distance));
                        tie = false;
                    } else if min_distance == current_min {
                        tie = true;
                    }
                },
                None => {
                    nearest = Some((LabelAttachment::Box(idx), min_distance));
                    tie = false;
                },
            }
        }
        idx += 1;
    }
    if tie {
        nearest = None;
    }
    let mut idx: usize = 0;
    while idx < inventory.vertical_arrows.len()
        invariant
            iv == inventory@,
            idx <= inventory.vertical_arrows@.len(),
            match nearest {
                Some((a, m)) => nearest_with_arrows(iv, row as int, col as int, idx as int) == Some((a, m as int)),
                None => nearest_with_arrows(iv, row as int, col as int, idx as int) is None,
            },
        decreases inventory.vertical_arrows@.len() - idx,
    {
        let arrow_col = inventory.vertical_arrows[idx].col;
        let col_distance = if arrow_col >= col { arrow_col - col } else { col - arrow_col };
        if col_distance <= 4 {
            match nearest {
                Some((current_attachment, current_min)) => {
                    let should_prefer_arrow = match current_attachment {
                        LabelAttachment::Box(_) => col_distance <= 3,
                        _ => col_distance < current_min,
                    };
                    if should_prefer_arrow {
                        nearest = Some((LabelAttachment::VerticalArrow(idx), col_distance));
                    }
                },
                None => {
                    nearest = Some((LabelAttachment::VerticalArrow(idx), col_distance));
                },
            }
        }
        idx += 1;
    }
    match nearest {
        Some((a, _)) => Some(a),
        None => None,
    }
}

/// Offset from the attachment point (a box's centre) to the label position.
fn calculate_offset(
    row: usize,
    col: usize,
    attachment: &LabelAttachment,
    inventory: &PrimitiveInventory,
) -> (r: (isize, isize))
    requires
        crate::primitives::small(row as int),
        crate::primitives::small(col as int),
        boxes_small(inventory@.boxes),
    ensures
        r == label_offset(inventory@, row as int, col as int, *attachment),
{
    match attachment {
        LabelAttachment::Box(idx) => {
            if *idx < inventory.boxes.len() {
                let b = &inventory.boxes[*idx];
                assert(inventory@.boxes[*idx as int] == b@);
                let center_row = (b.top_left.0 + b.bottom_right.0) / 2;
                let center_col = (b.top_left.1 + b.bottom_right.1) / 2;
                (row as isize - center_row as isize, col as isize - center_col as isize)
            } else {
                (0, 0)
            }
        },
        _ => (0, 0),
    }
}

/// Push the label for a finished run, as `label_emit` states.
fn emit_label(
    labels: &mut Vec<Label>,
    row: usize,
    start: Option<usize>,
    text: &Vec<char>,
    inventory: &PrimitiveInventory,
)
    requires
        crate::primitives::small(row as int),
        start matches Some(s) ==> crate::primitives::small(s as int),
        boxes_small(inventory@.boxes),
    ensures
        final(labels)@.map_values(|l: Label| l@) == old(labels)@.map_values(|l: Label| l@) + label_emit(
            inventory@,
            row as int,
            match start {
                Some(s) => Some(s as int),
                None => None,
            },
            text@,
        ),
{
    let ghost st = match start {
        Some(s) => Some(s as int),
        None => None,
    };
    if let Some(start_col) = start {
        if text.len() > 0 && byte_len_exceeds(text, 1) {
            if let Some(attachment) = find_nearest_primitive(row, start_col, inventory) {
                let offset = calculate_offset(row, start_col, &attachment, inventory);
                let l = Label {
                    row,
                    col: start_col,
                    content: string_of(text),
                    attached_to: attachment,
                    offset,
                };
                labels.push(l);
                assert(final(labels)@.map_values(|l: Label| l@) =~= old(labels)@.map_values(|l: Label| l@) + label_emit(inventory@, row as int, st, text@));
                return;
            }
        }
    }
    assert(label_emit(inventory@, row as int, st, text@) =~= Seq::empty());
    assert(labels@.map_values(|l: Label| l@) =~= old(labels)@.map_values(|l: Label| l@) + label_emit(inventory@, row as int, st, text@));
}

/// The tail of `a + e` from `b` is the tail of `a` from `b`, then `e`.
proof fn lemma_tail_of_append<A>(a: Seq<A>, e: Seq<A>, b: int)
    requires
        0 <= b <= a.len(),
    ensures
        (a + e).subrange(b, (a.len() + e.len()) as int) == a.subrange(b, a.len() as int) + e,
{
    assert((a + e).subrange(b, (a.len() + e.len()) as int) =~= a.subrange(b, a.len() as int) + e);
}

/// Detect labels: isolated runs of text next to a primitive, each attached
/// to the nearest box (within 2 cells) or vertical arrow (within 4 columns),
/// with its offset from a box's centre.
pub fn detect_labels(grid: &Grid, inventory: &PrimitiveInventory) -> (r: Vec<Label>)
    requires
        grid_small(grid@),
        boxes_small(inventory@.boxes),
    ensures
        r@.map_values(|l: Label| l@) == detect_labels_spec(grid@, inventory@),
{
    let ghost g = grid@;
    let ghost iv = inventory@;
    let h = grid.height();
    let w = grid.width();
    let mut labels: Vec<Label> = Vec::new();
    let mut row: usize = 0;
    while row < h
        invariant
            g == grid@,
            iv == inventory@,
            grid_small(g),
            boxes_small(iv.boxes),
            h == g.len(),
            w == max_row_len(g),
            row <= h,
            detect_labels_spec(g, iv) == labels@.map_values(|l: Label| l@) + labels_from_row(g, iv, row as int),
        decreases h - row,
    {
        let ghost before = labels@.map_values(|l: Label| l@);
        let mut start: Option<usize> = None;
        let mut text: Vec<char> = Vec::new();
        let mut col: usize = 0;
        while col < w
            invariant
                g == grid@,
                iv == inventory@,
                grid_small(g),
                boxes_small(iv.boxes),
                h == g.len(),
                w == max_row_len(g),
                row < h,
                col <= w,
                start matches Some(s) ==> s < col,
                labels_scan(g, iv, row as int, 0, None, Seq::empty()) == labels@.map_values(|l: Label| l@).subrange(before.len() as int, labels@.len() as int) + labels_scan(
                    g,
                    iv,
                    row as int,
                    col as int,
                    match start {
                        Some(s) => Some(s as int),
                        None => None,
                    },
                    text@,
                ),
                labels@.len() >= before.len(),
                labels@.map_values(|l: Label| l@).subrange(0, before.len() as int) == before,
            decreases w - col,
        {
            let ghost l0 = labels@.map_values(|l: Label| l@);
            let ghost st0 = match start {
                Some(s) => Some(s as int),
                None => None,
            };
            let ghost t0 = text@;
            if let Some(ch) = grid.get(row, col) {
                let free = !is_occupied(inventory, row, col) && !is_box_char(ch) && ch != ' ';
                assert(free == label_cell(iv, row as int, col as int, ch));
                if free {
                    if start.is_none() {
                        start = Some(col);
                    }
                    text.push(ch);
                } else {
                    emit_label(&mut labels, row, start, &text, inventory);
                    assert(labels_scan(g, iv, row as int, col as int, st0, t0) == label_emit(iv, row as int, st0, t0) + labels_scan(g, iv, row as int, col + 1, None, Seq::empty()));
                    assert(labels@.map_values(|l: Label| l@) == l0 + label_emit(iv, row as int, st0, t0));
                    proof {
                        lemma_tail_of_append(l0, label_emit(iv, row as int, st0, t0), before.len() as int);
                    }
                    start = None;
                    text = Vec::new();
                }
            }
            assert(labels@.map_values(|l: Label| l@).subrange(0, before.len() as int) =~= before);
            assert(labels_scan(g, iv, row as int, 0, None, Seq::empty()) =~= labels@.map_values(|l: Label| l@).subrange(before.len() as int, labels@.len() as int) + labels_scan(
                g,
                iv,
                row as int,
                col + 1,
                match start {
                    Some(s) => Some(s as int),
                    None => None,
                },
                text@,
            ));
            col += 1;
        }
        emit_label(&mut labels, row, start, &text, inventory);
        assert(labels@.map_values(|l: Label| l@) =~= before + labels_scan(g, iv, row as int, 0, None, Seq::empty()));
        row += 1;
    }
    labels
}


// ---------------------------------------------------------------------
// Unified detection
// ---------------------------------------------------------------------

/// `b2` lies strictly inside `b1`.
pub open spec fn strictly_contains(b1: BoxV, b2: BoxV) -> bool {
    &&& b1.top_left.0 < b2.top_left.0
    &&& b1.bottom_right.0 > b2.bottom_right.0
    &&& b1.top_left.1 < b2.top_left.1
    &&& b1.bottom_right.1 > b2.bottom_right.1
}

/// Some box lies strictly inside another.
pub open spec fn has_nested(boxes: Seq<BoxV>) -> bool {
    boxes.len() > 1 && exists|i: int, j: int|
        0 <= i < boxes.len() && 0 <= j < boxes.len() && #[trigger] strictly_contains(boxes[i], boxes[j])
}

/// A vertical border character that is dropped from the end of a text row.
pub open spec fn is_trailing_border(c: char) -> bool {
    c == '║' || c == '│' || c == '┃'
}

/// `str::trim_end_matches(['║', '│', '┃'])`.
pub open spec fn strip_trailing_borders(s: Seq<char>) -> Seq<char>
    decreases s.len(),
{
    if s.len() > 0 && is_trailing_border(s.last()) {
        strip_trailing_borders(s.drop_last())
    } else {
        s
    }
}

/// Text rows of the first `k` interior lines of box `b`: each non-blank
/// line, without trailing border characters, spanning the interior columns.
pub open spec fn box_text_rows(g: Seq<Seq<char>>, b: BoxV, k: int) -> Seq<TextRowV>
    decreases k,
{
    if k <= 0 {
        Seq::empty()
    } else {
        let prev = box_text_rows(g, b, k - 1);
        let line = box_content(g, b)[k - 1];
        if is_blank(line) {
            prev
        } else {
            prev.push(TextRowV {
                row: (b.top_left.0 + k) as usize,
                start_col: (b.top_left.1 + 1) as usize,
                end_col: (b.bottom_right.1 - 1) as usize,
                content: strip_trailing_borders(line),
            })
        }
    }
}

/// Text rows of the first `n` boxes, box by box.
pub open spec fn text_rows_of(g: Seq<Seq<char>>, boxes: Seq<BoxV>, n: int) -> Seq<TextRowV>
    decreases n,
{
    if n <= 0 {
        Seq::empty()
    } else {
        text_rows_of(g, boxes, n - 1) + box_text_rows(g, boxes[n - 1], box_content(g, boxes[n - 1]).len() as int)
    }
}

/// The inventory the label search runs against: boxes and arrows only.
pub open spec fn label_context(
    boxes: Seq<BoxV>,
    h: Seq<HorizontalArrow>,
    v: Seq<VerticalArrow>,
) -> InventoryV {
    InventoryV {
        boxes,
        horizontal_arrows: h,
        vertical_arrows: v,
        text_rows: Seq::empty(),
        connection_lines: Seq::empty(),
        labels: Seq::empty(),
    }
}

/// All primitives of a grid: boxes, arrows, labels, and the text rows of
/// the boxes (none when some box lies inside another).
pub open spec fn detect_all_spec(g: Seq<Seq<char>>) -> InventoryV {
    let boxes = detect_boxes_spec(g);
    let h = detect_horizontal_arrows_spec(g);
    let v = detect_vertical_arrows_spec(g);
    InventoryV {
        boxes,
        horizontal_arrows: h,
        vertical_arrows: v,
        text_rows: if has_nested(boxes) { Seq::empty() } else { text_rows_of(g, boxes, boxes.len() as int) },
        connection_lines: Seq::empty(),
        labels: detect_labels_spec(g, label_context(boxes, h, v)),
    }
}

/// Drop trailing border characters.
fn strip_trailing_borders_vec(v: &Vec<char>) -> (r: Vec<char>)
    ensures
        r@ == strip_trailing_borders(v@),
{
    let mut n = v.len();
    assert(v@.take(n as int) =~= v@);
    while n > 0 && (v[n - 1] == '║' || v[n - 1] == '│' || v[n - 1] == '┃')
        invariant
            n <= v.len(),
            strip_trailing_borders(v@) == strip_trailing_borders(v@.take(n as int)),
        decreases n,
    {
        assert(v@.take(n as int).drop_last() =~= v@.take(n - 1));
        n -= 1;
    }
    crate::text::slice_vec(v, 0, n)
}

/// Whether some box lies strictly inside another.
fn any_nested(boxes: &Vec<Box>) -> (b: bool)
    ensures
        b == has_nested(boxes@.map_values(|x: Box| x@)),
{
    let ghost bs = boxes@.map_values(|x: Box| x@);
    if boxes.len() <= 1 {
        return false;
    }
    let mut i: usize = 0;
    while i < boxes.len()
        invariant
            bs == boxes@.map_values(|x: Box| x@),
            i <= boxes@.len(),
            forall|a: int, c: int| 0 <= a < i && 0 <= c < bs.len() ==> !#[trigger] strictly_contains(bs[a], bs[c]),
        decreases boxes@.len() - i,
    {
        let mut j: usize = 0;
        while j < boxes.len()
            invariant
                bs == boxes@.map_values(|x: Box| x@),
                i < boxes@.len(),
                j <= boxes@.len(),
                forall|a: int, c: int| 0 <= a < i && 0 <= c < bs.len() ==> !#[trigger] strictly_contains(bs[a], bs[c]),
                forall|c: int| 0 <= c < j ==> !#[trigger] strictly_contains(bs[i as int], bs[c]),
            decreases boxes@.len() - j,
        {
            let b1 = &boxes[i];
            let b2 = &boxes[j];
            if b1.top_left.0 < b2.top_left.0 && b1.bottom_right.0 > b2.bottom_right.0
                && b1.top_left.1 < b2.top_left.1 && b1.bottom_right.1 > b2.bottom_right.1 {
                assert(strictly_contains(bs[i as int], bs[j as int]));
                return true;
            }
            j += 1;
        }
        i += 1;
    }
    false
}

/// The text rows of one box.
fn text_rows_of_box(grid: &Grid, b: &Box, out: &mut Vec<TextRow>)
    requires
        self::boxes::traced_box_ok(grid@, b@),
        grid_small(grid@),
    ensures
        final(out)@.map_values(|t: TextRow| t@) == old(out)@.map_values(|t: TextRow| t@) + box_text_rows(
            grid@,
            b@,
            box_content(grid@, b@).len() as int,
        ),
{
    let ghost g = grid@;
    let ghost o0 = out@.map_values(|t: TextRow| t@);
    let lines = extract_box_content(grid, b);
    let mut idx: usize = 0;
    while idx < lines.len()
        invariant
            g == grid@,
            self::boxes::traced_box_ok(g, b@),
            grid_small(g),
            idx <= lines@.len(),
            lines@.len() == box_content(g, b@).len(),
            forall|i: int| 0 <= i < lines@.len() ==> (#[trigger] lines@[i])@ == box_content(g, b@)[i],
            out@.map_values(|t: TextRow| t@) == o0 + box_text_rows(g, b@, idx as int),
        decreases lines@.len() - idx,
    {
        let line = chars_of(lines[idx].as_str());
        if !is_blank_vec(&line) {
            let clean = strip_trailing_borders_vec(&line);
            let ghost before = out@.map_values(|t: TextRow| t@);
            out.push(TextRow {
                row: b.top_left.0 + 1 + idx,
                start_col: b.top_left.1 + 1,
                end_col: b.bottom_right.1 - 1,
                content: string_of(&clean),
            });
            assert(out@.map_values(|t: TextRow| t@) =~= before.push(out@[out@.len() - 1]@));
        }
        idx += 1;
    }
}

/// Unified detector that returns all primitives in a diagram: boxes,
/// arrows, labels, and the text inside boxes (skipped when boxes nest).
pub fn detect_all_primitives(grid: &Grid) -> (r: PrimitiveInventory)
    requires
        grid_small(grid@),
    ensures
        r@ == detect_all_spec(grid@),
        forall|i: int| 0 <= i < r@.boxes.len() ==> self::boxes::traced_box_ok(grid@, #[trigger] r@.boxes[i]),
{
    let ghost g = grid@;
    let boxes = detect_boxes(grid);
    let horizontal_arrows = detect_horizontal_arrows(grid);
    let vertical_arrows = detect_vertical_arrows(grid);
    proof {
        self::boxes::law_detected_boxes_well_formed(g);
        crate::grid::lemma_max_row_len(g);
    }
    let ghost bs = boxes@.map_values(|x: Box| x@);
    let temp_inventory = PrimitiveInventory {
        boxes: copy_boxes(&boxes),
        horizontal_arrows: copy_vec(&horizontal_arrows),
        vertical_arrows: copy_vec(&vertical_arrows),
        text_rows: Vec::new(),
        connection_lines: Vec::new(),
        labels: Vec::new(),
    };
    assert(temp_inventory@.text_rows =~= Seq::<TextRowV>::empty());
    assert(temp_inventory@.connection_lines =~= Seq::<crate::primitives::ConnectionLineV>::empty());
    assert(temp_inventory@.labels =~= Seq::<LabelV>::empty());
    assert(temp_inventory@ == label_context(bs, horizontal_arrows@, vertical_arrows@));
    assert(boxes_small(temp_inventory@.boxes)) by {
        assert forall|i: int| 0 <= i < bs.len() implies self::boxes::traced_box_ok(g, #[trigger] bs[i]) by {}
    }
    let labels = detect_labels(grid, &temp_inventory);
    let mut text_rows: Vec<TextRow> = Vec::new();
    let nested = any_nested(&boxes);
    if !nested {
        let mut k: usize = 0;
        while k < boxes.len()
            invariant
                g == grid@,
                grid_small(g),
                bs == boxes@.map_values(|x: Box| x@),
                forall|i: int| 0 <= i < bs.len() ==> self::boxes::traced_box_ok(g, #[trigger] bs[i]),
                k <= boxes@.len(),
                text_rows@.map_values(|t: TextRow| t@) == text_rows_of(g, bs, k as int),
            decreases boxes@.len() - k,
        {
            assert(bs[k as int] == boxes@[k as int]@);
            text_rows_of_box(grid, &boxes[k], &mut text_rows);
            k += 1;
        }
    }
    let r = PrimitiveInventory {
        boxes,
        horizontal_arrows,
        vertical_arrows,
        text_rows,
        connection_lines: Vec::new(),
        labels,
    };
    assert(r@.connection_lines =~= Seq::<crate::primitives::ConnectionLineV>::empty());
    if nested {
        assert(r@.text_rows =~= Seq::<TextRowV>::empty());
    }
    r
}

} // verus!
