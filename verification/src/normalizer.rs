//! Layout normalization and repair logic for ASCII diagrams.

use vstd::prelude::*;

use crate::primitives::{
    Box as DiagramBox, BoxV, HorizontalArrow, InventoryV, PrimitiveInventory, TextRow, TextRowV,
    VerticalArrow, MAX_COORD, copy_vec, copy_text_rows, copy_connection_lines, copy_labels,
    copy_boxes,
};
use crate::text::{byte_len, trim_end, chars_of, trim_end_vec, byte_len_vec, lemma_trail_ws_bound};

verus! {

// ---------------------------------------------------------------------------
// Box widths
// ---------------------------------------------------------------------------

/// The text row is interior to the box: strictly between its top and
/// bottom border rows, and starting within its columns.
pub open spec fn inside_rows(b: BoxV, r: TextRowV) -> bool {
    b.top_left.0 < r.row < b.bottom_right.0 && b.top_left.1 <= r.start_col <= b.bottom_right.1
}

/// Bytes of a text row's content once trailing whitespace is dropped.
pub open spec fn content_width(r: TextRowV) -> nat {
    byte_len(trim_end(r.content))
}

/// The widest content among the rows inside the box (0 when none).
pub open spec fn max_content(rows: Seq<TextRowV>, b: BoxV) -> nat
    decreases rows.len(),
{
    if rows.len() == 0 {
        0
    } else {
        let m = max_content(rows.drop_last(), b);
        let r = rows.last();
        if inside_rows(b, r) && content_width(r) > m {
            content_width(r)
        } else {
            m
        }
    }
}

/// The box with its right border moved so that content of `m` bytes fits
/// between the borders; never narrower than before.
pub open spec fn widen_box(b: BoxV, m: nat) -> BoxV {
    if m > 0 && m + 2 > b.width() {
        BoxV {
            top_left: b.top_left,
            bottom_right: (b.bottom_right.0, (b.top_left.1 + m + 1) as usize),
            style: b.style,
            parent_idx: b.parent_idx,
            child_indices: b.child_indices,
        }
    } else {
        b
    }
}

/// Index of the first box whose rows enclose the text row.
pub open spec fn first_row_box(boxes: Seq<BoxV>, r: TextRowV) -> Option<int>
    decreases boxes.len(),
{
    if boxes.len() == 0 {
        None
    } else {
        match first_row_box(boxes.drop_last(), r) {
            Some(j) => Some(j),
            None => if inside_rows(boxes.last(), r) {
                Some(boxes.len() - 1)
            } else {
                None
            },
        }
    }
}

/// The boxes after widening each to its content.
pub open spec fn widened_boxes(inv: InventoryV) -> Seq<BoxV> {
    inv.boxes.map_values(|b: BoxV| widen_box(b, max_content(inv.text_rows, b)))
}

/// A text row with its end column moved to one before the right border of
/// the first box that encloses it.
pub open spec fn refit_row(boxes: Seq<BoxV>, r: TextRowV) -> TextRowV {
    match first_row_box(boxes, r) {
        Some(j) => TextRowV {
            row: r.row,
            start_col: r.start_col,
            end_col: (boxes[j].bottom_right.1 - 1) as usize,
            content: r.content,
        },
        None => r,
    }
}

/// The inventory that `normalize_box_widths` produces.
pub open spec fn box_widths_spec(inv: InventoryV) -> InventoryV {
    let boxes = widened_boxes(inv);
    InventoryV {
        boxes: boxes,
        horizontal_arrows: inv.horizontal_arrows,
        vertical_arrows: inv.vertical_arrows,
        text_rows: inv.text_rows.map_values(|r: TextRowV| refit_row(boxes, r)),
        connection_lines: inv.connection_lines,
        labels: inv.labels,
    }
}

/// Inputs on which `normalize_box_widths` computes without overflow: small
/// coordinates and contents, corners in order where a width is taken, and a
/// right border after column 0 for every box a row is refitted to.
pub open spec fn box_widths_ok(inv: InventoryV) -> bool {
    &&& forall|k: int| 0 <= k < inv.boxes.len() ==> {
        let b = #[trigger] inv.boxes[k];
        &&& b.top_left.1 <= MAX_COORD
        &&& b.bottom_right.1 <= MAX_COORD
        &&& max_content(inv.text_rows, b) > 0 ==> b.top_left.1 <= b.bottom_right.1
    }
    &&& forall|k: int| 0 <= k < inv.text_rows.len() ==> (#[trigger] inv.text_rows[k]).content.len()
        <= MAX_COORD
    &&& forall|k: int| 0 <= k < inv.text_rows.len() ==> {
        let bs = widened_boxes(inv);
        match first_row_box(bs, #[trigger] inv.text_rows[k]) {
            Some(j) => bs[j].bottom_right.1 >= 1,
            None => true,
        }
    }
}

pub proof fn lemma_max_content_bound(rows: Seq<TextRowV>, b: BoxV)
    requires
        forall|k: int| 0 <= k < rows.len() ==> (#[trigger] rows[k]).content.len() <= MAX_COORD,
    ensures
        max_content(rows, b) <= 4 * MAX_COORD,
    decreases rows.len(),
{
    if rows.len() > 0 {
        lemma_max_content_bound(rows.drop_last(), b);
        let c = rows.last().content;
        lemma_trail_ws_bound(c);
        crate::text::lemma_byte_len_bounds(trim_end(c));
        assert(rows.last() == rows[rows.len() - 1]);
    }
}

pub proof fn lemma_first_row_box(boxes: Seq<BoxV>, r: TextRowV)
    ensures
        match first_row_box(boxes, r) {
            Some(j) => 0 <= j < boxes.len() && inside_rows(boxes[j], r) && forall|i: int|
                0 <= i < j ==> !inside_rows(#[trigger] boxes[i], r),
            None => forall|i: int| 0 <= i < boxes.len() ==> !inside_rows(#[trigger] boxes[i], r),
        },
    decreases boxes.len(),
{
    if boxes.len() > 0 {
        lemma_first_row_box(boxes.drop_last(), r);
        assert forall|i: int| 0 <= i < boxes.len() - 1 implies #[trigger] boxes[i]
            == boxes.drop_last()[i] by {}
    }
}

/// Width of the widest content inside the box, computed.
fn max_content_exec(rows: &Vec<TextRow>, b: &DiagramBox) -> (m: usize)
    requires
        forall|k: int| 0 <= k < rows@.len() ==> (#[trigger] rows@[k])@.content.len() <= MAX_COORD,
    ensures
        m == max_content(rows@.map_values(|r: TextRow| r@), b@),
        m <= 4 * MAX_COORD,
{
    let ghost rv = rows@.map_values(|r: TextRow| r@);
    let mut m: usize = 0;
    let mut i: usize = 0;
    while i < rows.len()
        invariant
            i <= rows.len(),
            rv == rows@.map_values(|r: TextRow| r@),
            forall|k: int| 0 <= k < rows@.len() ==> (#[trigger] rows@[k])@.content.len() <= MAX_COORD,
            m == max_content(rv.take(i as int), b@),
            m <= 4 * MAX_COORD,
        decreases rows.len() - i,
    {
        let r = &rows[i];
        let c = chars_of(r.content.as_str());
        let t = trim_end_vec(&c);
        proof {
            lemma_trail_ws_bound(c@);
            assert(rv[i as int] == r@);
        }
        let w = byte_len_vec(&t);
        proof {
            crate::text::lemma_byte_len_bounds(t@);
            assert(rv.take(i + 1).drop_last() =~= rv.take(i as int));
            assert(rv.take(i + 1).last() == rv[i as int]);
        }
        if r.row > b.top_left.0 && r.row < b.bottom_right.0 && b.top_left.1 <= r.start_col
            && r.start_col <= b.bottom_right.1 && w > m {
            m = w;
        }
        i += 1;
    }
    assert(rv.take(i as int) =~= rv);
    m
}

/// Normalize box widths to fit their content.
///
/// Each box is widened to the right so that its widest interior text row
/// (trailing whitespace dropped, measured in bytes) fits between the borders;
/// then every text row ends one column before the right border of the first
/// box whose rows enclose it.
pub fn normalize_box_widths(inventory: &PrimitiveInventory) -> (r: PrimitiveInventory)
    requires
        box_widths_ok(inventory@),
    ensures
        r@ == box_widths_spec(inventory@),
{
    let ghost inv = inventory@;
    let ghost target = widened_boxes(inv);
    let mut boxes: Vec<DiagramBox> = Vec::new();
    let mut i: usize = 0;
    while i < inventory.boxes.len()
        invariant
            i <= inventory.boxes.len(),
            inv == inventory@,
            target == widened_boxes(inv),
            box_widths_ok(inv),
            boxes@.len() == i,
            forall|k: int| 0 <= k < i ==> (#[trigger] boxes@[k])@ == target[k],
        decreases inventory.boxes.len() - i,
    {
        let b = &inventory.boxes[i];
        proof {
            assert(inv.boxes[i as int] == b@);
            assert(inv.text_rows == inventory.text_rows@.map_values(|r: TextRow| r@));
            assert forall|k: int| 0 <= k < inventory.text_rows@.len() implies (
            #[trigger] inventory.text_rows@[k])@.content.len() <= MAX_COORD by {
                assert(inv.text_rows[k] == inventory.text_rows@[k]@);
            }
        }
        let m = max_content_exec(&inventory.text_rows, b);
        let mut nb = b.copy();
        if m > 0 {
            let w = b.width();
            if m + 2 > w {
                nb.bottom_right = (b.bottom_right.0, b.top_left.1 + m + 1);
            }
        }
        boxes.push(nb);
        i += 1;
    }
    proof {
        assert(boxes@.map_values(|b: DiagramBox| b@) =~= target);
    }
    let ghost rows_target = inv.text_rows.map_values(|r: TextRowV| refit_row(target, r));
    let mut rows: Vec<TextRow> = Vec::new();
    let mut i: usize = 0;
    while i < inventory.text_rows.len()
        invariant
            i <= inventory.text_rows.len(),
            inv == inventory@,
            target == widened_boxes(inv),
            box_widths_ok(inv),
            boxes@.map_values(|b: DiagramBox| b@) == target,
            rows_target == inv.text_rows.map_values(|r: TextRowV| refit_row(target, r)),
            rows@.len() == i,
            forall|k: int| 0 <= k < i ==> (#[trigger] rows@[k])@ == rows_target[k],
        decreases inventory.text_rows.len() - i,
    {
        let t = &inventory.text_rows[i];
        proof {
            assert(inv.text_rows[i as int] == t@);
            lemma_first_row_box(target, t@);
        }
        let mut nt = t.copy();
        let mut j: usize = 0;
        let mut found = false;
        while !found && j < boxes.len()
            invariant
                j <= boxes.len(),
                boxes@.map_values(|b: DiagramBox| b@) == target,
                found ==> j < boxes.len() && inside_rows(target[j as int], t@),
                forall|q: int| 0 <= q < j ==> !inside_rows(#[trigger] target[q], t@),
            decreases boxes.len() - j + (if found { 0int } else { 1int }),
        {
            proof { assert(target[j as int] == boxes@[j as int]@); }
            if t.row > boxes[j].top_left.0 && t.row < boxes[j].bottom_right.0 && boxes[j].top_left.1
                <= t.start_col && t.start_col <= boxes[j].bottom_right.1 {
                found = true;
            } else {
                j += 1;
            }
        }
        if found {
            proof {
                assert(first_row_box(target, t@) == Some(j as int));
                assert(target[j as int] == boxes@[j as int]@);
                assert(box_widths_ok(inv));
                assert(first_row_box(widened_boxes(inv), inv.text_rows[i as int]) == Some(j as int));
            }
            nt.end_col = boxes[j].bottom_right.1 - 1;
        } else {
            proof { assert(first_row_box(target, t@) is None); }
        }
        rows.push(nt);
        i += 1;
    }
    proof {
        assert(rows@.map_values(|r: TextRow| r@) =~= rows_target);
    }
    PrimitiveInventory {
        boxes: boxes,
        horizontal_arrows: copy_vec(&inventory.horizontal_arrows),
        vertical_arrows: copy_vec(&inventory.vertical_arrows),
        text_rows: rows,
        connection_lines: copy_connection_lines(&inventory.connection_lines),
        labels: copy_labels(&inventory.labels),
    }
}

proof fn lemma_max_content_same(rows1: Seq<TextRowV>, rows2: Seq<TextRowV>, b1: BoxV, b2: BoxV)
    requires
        rows1.len() == rows2.len(),
        forall|k: int| 0 <= k < rows1.len() ==> inside_rows(b1, #[trigger] rows1[k]) == inside_rows(b2, rows2[k])
            && rows1[k].content == rows2[k].content,
    ensures
        max_content(rows1, b1) == max_content(rows2, b2),
    decreases rows1.len(),
{
    if rows1.len() > 0 {
        assert(rows1.last() == rows1[rows1.len() - 1]);
        lemma_max_content_same(rows1.drop_last(), rows2.drop_last(), b1, b2);
    }
}

proof fn lemma_first_row_box_same(boxes: Seq<BoxV>, r1: TextRowV, r2: TextRowV)
    requires
        r1.row == r2.row,
        r1.start_col == r2.start_col,
    ensures
        first_row_box(boxes, r1) == first_row_box(boxes, r2),
    decreases boxes.len(),
{
    if boxes.len() > 0 {
        lemma_first_row_box_same(boxes.drop_last(), r1, r2);
    }
}

/// Widening a box takes in no text row that did not start within its
/// columns before.
pub open spec fn widening_takes_no_row(inv: InventoryV) -> bool {
    forall|k: int, q: int|
        0 <= k < inv.boxes.len() && 0 <= q < inv.text_rows.len() && inside_rows(
            widen_box(#[trigger] inv.boxes[k], max_content(inv.text_rows, inv.boxes[k])),
            #[trigger] inv.text_rows[q],
        ) ==> inside_rows(inv.boxes[k], inv.text_rows[q])
}

/// Normalizing box widths a second time changes nothing, where widening a
/// box takes in no text row that started beyond its right border.
pub proof fn law_box_widths_idempotent(inv: InventoryV)
    requires
        box_widths_ok(inv),
        widening_takes_no_row(inv),
    ensures
        box_widths_spec(box_widths_spec(inv)) == box_widths_spec(inv),
{
    let once = box_widths_spec(inv);
    let twice = box_widths_spec(once);
    assert forall|k: int| 0 <= k < inv.boxes.len() implies #[trigger] twice.boxes[k] == once.boxes[k] by {
        let b = inv.boxes[k];
        let m = max_content(inv.text_rows, b);
        lemma_max_content_bound(inv.text_rows, b);
        let b1 = widen_box(b, m);
        assert(once.boxes[k] == b1);
        assert forall|q: int| 0 <= q < once.text_rows.len() implies inside_rows(b1, #[trigger] once.text_rows[q])
            == inside_rows(b, inv.text_rows[q]) && once.text_rows[q].content == inv.text_rows[q].content by {
            assert(once.text_rows[q] == refit_row(once.boxes, inv.text_rows[q]));
            if inside_rows(b1, inv.text_rows[q]) {
                assert(inside_rows(b, inv.text_rows[q]));
            }
        }
        lemma_max_content_same(once.text_rows, inv.text_rows, b1, b);
        assert(max_content(once.text_rows, b1) == m);
    }
    assert(twice.boxes =~= once.boxes);
    assert forall|k: int| 0 <= k < inv.text_rows.len() implies #[trigger] twice.text_rows[k]
        == once.text_rows[k] by {
        let r = inv.text_rows[k];
        let r1 = refit_row(once.boxes, r);
        assert(once.text_rows[k] == r1);
        lemma_first_row_box_same(once.boxes, r1, r);
    }
    assert(twice.text_rows =~= once.text_rows);
}

proof fn lemma_max_content_ge(rows: Seq<TextRowV>, b: BoxV, q: int)
    requires
        0 <= q < rows.len(),
        inside_rows(b, rows[q]),
    ensures
        max_content(rows, b) >= content_width(rows[q]),
    decreases rows.len(),
{
    if q < rows.len() - 1 {
        assert(rows.drop_last()[q] == rows[q]);
        lemma_max_content_ge(rows.drop_last(), b, q);
    }
}

/// After normalizing box widths, every non-blank text row interior to a box
/// fits between its borders: the box is at least two columns wider than the
/// row's content; the box keeps its corner, rows and style.
pub proof fn law_box_content_fits(inv: InventoryV)
    requires
        box_widths_ok(inv),
    ensures
        forall|k: int, q: int|
            0 <= k < inv.boxes.len() && 0 <= q < inv.text_rows.len() && inside_rows(
                #[trigger] inv.boxes[k],
                #[trigger] inv.text_rows[q],
            ) && content_width(inv.text_rows[q]) > 0 ==> box_widths_spec(inv).boxes[k].width()
                >= content_width(inv.text_rows[q]) + 2,
        forall|k: int| 0 <= k < inv.boxes.len() ==> {
            let b = #[trigger] box_widths_spec(inv).boxes[k];
            &&& b.top_left == inv.boxes[k].top_left
            &&& b.bottom_right.0 == inv.boxes[k].bottom_right.0
            &&& b.style == inv.boxes[k].style
        },
{
    assert forall|k: int, q: int|
        0 <= k < inv.boxes.len() && 0 <= q < inv.text_rows.len() && inside_rows(
            #[trigger] inv.boxes[k],
            #[trigger] inv.text_rows[q],
        ) && content_width(inv.text_rows[q]) > 0 implies box_widths_spec(inv).boxes[k].width()
            >= content_width(inv.text_rows[q]) + 2 by {
        let b = inv.boxes[k];
        lemma_max_content_ge(inv.text_rows, b, q);
        lemma_max_content_bound(inv.text_rows, b);
        assert(box_widths_spec(inv).boxes[k] == widen_box(b, max_content(inv.text_rows, b)));
    }
}

/// Normalizing box widths moves only right borders: each box keeps its
/// corner, bottom row, style and nesting, and is as wide as before unless
/// its widest interior text (`m` bytes, 0 when none) needs more, when it is
/// `m + 2` wide. Each text row keeps its row, start and content, and ends
/// one column before the right border of the first box that encloses it
/// (it is left as it was when none does).
pub proof fn law_box_widths_exact(inv: InventoryV)
    requires
        box_widths_ok(inv),
    ensures
        forall|k: int| 0 <= k < inv.boxes.len() ==> {
            let b = inv.boxes[k];
            let m = max_content(inv.text_rows, b);
            let r = #[trigger] box_widths_spec(inv).boxes[k];
            &&& r.top_left == b.top_left
            &&& r.bottom_right.0 == b.bottom_right.0
            &&& r.style == b.style
            &&& r.parent_idx == b.parent_idx
            &&& r.child_indices == b.child_indices
            &&& r.width() == if m == 0 || m + 2 <= b.width() { b.width() } else { m + 2int }
        },
        forall|q: int| 0 <= q < inv.text_rows.len() ==> {
            let t = inv.text_rows[q];
            let out = box_widths_spec(inv);
            let u = #[trigger] box_widths_spec(inv).text_rows[q];
            &&& u.row == t.row && u.start_col == t.start_col && u.content == t.content
            &&& match first_row_box(out.boxes, t) {
                Some(j) => u.end_col == out.boxes[j].bottom_right.1 - 1,
                None => u == t,
            }
        },
{
    assert forall|k: int| 0 <= k < inv.boxes.len() implies {
        let b = inv.boxes[k];
        let m = max_content(inv.text_rows, b);
        let r = #[trigger] box_widths_spec(inv).boxes[k];
        &&& r.top_left == b.top_left
        &&& r.bottom_right.0 == b.bottom_right.0
        &&& r.style == b.style
        &&& r.parent_idx == b.parent_idx
        &&& r.child_indices == b.child_indices
        &&& r.width() == if m == 0 || m + 2 <= b.width() { b.width() } else { m + 2int }
    } by {
        let b = inv.boxes[k];
        lemma_max_content_bound(inv.text_rows, b);
        assert(box_widths_spec(inv).boxes[k] == widen_box(b, max_content(inv.text_rows, b)));
    }
    assert forall|q: int| 0 <= q < inv.text_rows.len() implies {
        let t = inv.text_rows[q];
        let out = box_widths_spec(inv);
        let u = #[trigger] box_widths_spec(inv).text_rows[q];
        &&& u.row == t.row && u.start_col == t.start_col && u.content == t.content
        &&& match first_row_box(out.boxes, t) {
            Some(j) => u.end_col == out.boxes[j].bottom_right.1 - 1,
            None => u == t,
        }
    } by {
        let out = box_widths_spec(inv);
        let t = inv.text_rows[q];
        assert(out.text_rows[q] == refit_row(out.boxes, t));
        lemma_first_row_box(out.boxes, t);
    }
}

// ---------------------------------------------------------------------------
// Padding
// ---------------------------------------------------------------------------

/// Index of the first element that satisfies `p`.
pub open spec fn first_where<A>(s: Seq<A>, p: spec_fn(A) -> bool) -> Option<int>
    decreases s.len(),
{
    if s.len() == 0 {
        None
    } else {
        match first_where(s.drop_last(), p) {
            Some(j) => Some(j),
            None => if p(s.last()) {
                Some(s.len() - 1)
            } else {
                None
            },
        }
    }
}

pub proof fn lemma_first_where<A>(s: Seq<A>, p: spec_fn(A) -> bool)
    ensures
        match first_where(s, p) {
            Some(j) => 0 <= j < s.len() && p(s[j]) && forall|i: int| 0 <= i < j ==> !p(#[trigger] s[i]),
            None => forall|i: int| 0 <= i < s.len() ==> !p(#[trigger] s[i]),
        },
    decreases s.len(),
{
    if s.len() > 0 {
        lemma_first_where(s.drop_last(), p);
        assert forall|i: int| 0 <= i < s.len() - 1 implies #[trigger] s[i] == s.drop_last()[i] by {}
    }
}

/// The text row lies inside the rows of the box and starts within its columns.
pub open spec fn encloses_row(b: BoxV, r: TextRowV) -> bool {
    b.top_left.0 < r.row < b.bottom_right.0 && b.top_left.1 <= r.start_col <= b.bottom_right.1
}

/// Index of the first box that encloses the text row.
pub open spec fn padding_box(boxes: Seq<BoxV>, r: TextRowV) -> Option<int> {
    first_where(boxes, |b: BoxV| encloses_row(b, r))
}

/// The text row with one column of padding on each side inside its box.
pub open spec fn pad_row(boxes: Seq<BoxV>, r: TextRowV) -> TextRowV {
    match padding_box(boxes, r) {
        Some(j) => TextRowV {
            row: r.row,
            start_col: (boxes[j].top_left.1 + 1) as usize,
            end_col: (boxes[j].bottom_right.1 - 1) as usize,
            content: r.content,
        },
        None => r,
    }
}

/// The inventory that `normalize_padding` produces.
pub open spec fn padding_spec(inv: InventoryV) -> InventoryV {
    InventoryV {
        boxes: inv.boxes,
        horizontal_arrows: inv.horizontal_arrows,
        vertical_arrows: inv.vertical_arrows,
        text_rows: inv.text_rows.map_values(|r: TextRowV| pad_row(inv.boxes, r)),
        connection_lines: inv.connection_lines,
        labels: inv.labels,
    }
}

/// Inputs on which `normalize_padding` computes without overflow: the box a
/// row is padded to has room for a column after its left border and before
/// its right border.
pub open spec fn padding_ok(inv: InventoryV) -> bool {
    forall|k: int| 0 <= k < inv.text_rows.len() ==> match padding_box(
        inv.boxes,
        #[trigger] inv.text_rows[k],
    ) {
        Some(j) => inv.boxes[j].top_left.1 < usize::MAX && inv.boxes[j].bottom_right.1 >= 1,
        None => true,
    }
}

/// Enforce uniform 1-space interior padding in boxes.
///
/// Each text row that starts within the columns of a box whose rows enclose
/// it (the first such box) is moved to start one column after the left
/// border and end one column before the right border.
pub fn normalize_padding(inventory: &PrimitiveInventory) -> (r: PrimitiveInventory)
    requires
        padding_ok(inventory@),
    ensures
        r@ == padding_spec(inventory@),
{
    let ghost inv = inventory@;
    let ghost target = inv.text_rows.map_values(|r: TextRowV| pad_row(inv.boxes, r));
    let mut rows: Vec<TextRow> = Vec::new();
    let mut i: usize = 0;
    while i < inventory.text_rows.len()
        invariant
            i <= inventory.text_rows.len(),
            inv == inventory@,
            padding_ok(inv),
            target == inv.text_rows.map_values(|r: TextRowV| pad_row(inv.boxes, r)),
            rows@.len() == i,
            forall|k: int| 0 <= k < i ==> (#[trigger] rows@[k])@ == target[k],
        decreases inventory.text_rows.len() - i,
    {
        let t = &inventory.text_rows[i];
        let ghost pr = |b: BoxV| encloses_row(b, t@);
        proof {
            assert(inv.text_rows[i as int] == t@);
            lemma_first_where(inv.boxes, pr);
        }
        let mut nt = t.copy();
        let mut j: usize = 0;
        let mut found = false;
        while !found && j < inventory.boxes.len()
            invariant
                j <= inventory.boxes.len(),
                inv == inventory@,
                found ==> j < inventory.boxes.len() && encloses_row(inv.boxes[j as int], t@),
                forall|q: int| 0 <= q < j ==> !encloses_row(#[trigger] inv.boxes[q], t@),
            decreases inventory.boxes.len() - j + (if found { 0int } else { 1int }),
        {
            let b = &inventory.boxes[j];
            proof { assert(inv.boxes[j as int] == b@); }
            if t.row > b.top_left.0 && t.row < b.bottom_right.0 && t.start_col >= b.top_left.1
                && t.start_col <= b.bottom_right.1 {
                found = true;
            } else {
                j += 1;
            }
        }
        if found {
            proof {
                assert(padding_box(inv.boxes, t@) == Some(j as int));
                assert(inv.boxes[j as int] == inventory.boxes@[j as int]@);
                assert(padding_box(inv.boxes, inv.text_rows[i as int]) == Some(j as int));
            }
            nt.start_col = inventory.boxes[j].top_left.1 + 1;
            nt.end_col = inventory.boxes[j].bottom_right.1 - 1;
        } else {
            proof { assert(padding_box(inv.boxes, t@) is None); }
        }
        rows.push(nt);
        i += 1;
    }
    proof {
        assert(rows@.map_values(|r: TextRow| r@) =~= target);
    }
    PrimitiveInventory {
        boxes: copy_boxes(&inventory.boxes),
        horizontal_arrows: copy_vec(&inventory.horizontal_arrows),
        vertical_arrows: copy_vec(&inventory.vertical_arrows),
        text_rows: rows,
        connection_lines: copy_connection_lines(&inventory.connection_lines),
        labels: copy_labels(&inventory.labels),
    }
}

/// Boxes whose interiors share a row do not share a column.
pub open spec fn side_by_side_disjoint(boxes: Seq<BoxV>) -> bool {
    forall|i: int, j: int|
        0 <= i < boxes.len() && 0 <= j < boxes.len() && i != j && interiors_share_row(
            #[trigger] boxes[i],
            #[trigger] boxes[j],
        ) ==> boxes[i].bottom_right.1 < boxes[j].top_left.1 || boxes[j].bottom_right.1
            < boxes[i].top_left.1
}

/// Some row lies strictly inside both boxes.
pub open spec fn interiors_share_row(a: BoxV, b: BoxV) -> bool {
    &&& a.top_left.0 + 1 < a.bottom_right.0
    &&& a.top_left.0 + 1 < b.bottom_right.0
    &&& b.top_left.0 + 1 < a.bottom_right.0
    &&& b.top_left.0 + 1 < b.bottom_right.0
}

/// Padding a second time changes nothing, where every box is at least two
/// columns wide and boxes whose interiors share a row do not share a column.
pub proof fn law_padding_idempotent(inv: InventoryV)
    requires
        padding_ok(inv),
        forall|k: int| 0 <= k < inv.boxes.len() ==> (#[trigger] inv.boxes[k]).top_left.1
            < inv.boxes[k].bottom_right.1,
        side_by_side_disjoint(inv.boxes),
    ensures
        padding_spec(padding_spec(inv)) == padding_spec(inv),
{
    let once = padding_spec(inv);
    let twice = padding_spec(once);
    assert forall|k: int| 0 <= k < inv.text_rows.len() implies #[trigger] twice.text_rows[k]
        == once.text_rows[k] by {
        let r = inv.text_rows[k];
        let r1 = pad_row(inv.boxes, r);
        assert(once.text_rows[k] == r1);
        lemma_first_where(inv.boxes, |b: BoxV| encloses_row(b, r));
        lemma_first_where(inv.boxes, |b: BoxV| encloses_row(b, r1));
        match padding_box(inv.boxes, r) {
            Some(j) => {
                assert(encloses_row(inv.boxes[j], r1));
                match padding_box(inv.boxes, r1) {
                    Some(j2) => {
                        if j2 != j {
                            assert(j2 < j);
                            assert(interiors_share_row(inv.boxes[j2], inv.boxes[j]));
                            assert(false);
                        }
                    },
                    None => {},
                }
            },
            None => {},
        }
    }
    assert(twice.text_rows =~= once.text_rows);
}

// ---------------------------------------------------------------------------
// Vertical arrows
// ---------------------------------------------------------------------------

/// The columns a vertical arrow may snap to on a box: left border, centre
/// (rounded down) and right border.
pub open spec fn box_candidates(b: BoxV) -> Seq<usize> {
    seq![b.top_left.1, ((b.top_left.1 + b.bottom_right.1) / 2) as usize, b.bottom_right.1]
}

/// The snap columns of all boxes, in order.
pub open spec fn all_candidates(boxes: Seq<BoxV>) -> Seq<usize>
    decreases boxes.len(),
{
    if boxes.len() == 0 {
        Seq::empty()
    } else {
        all_candidates(boxes.drop_last()) + box_candidates(boxes.last())
    }
}

/// Distance between two columns.
pub open spec fn col_distance(a: usize, b: usize) -> int {
    if a >= b {
        a - b
    } else {
        b - a
    }
}

/// Scanning candidates in order, the first one strictly closer than every
/// earlier one and than `usize::MAX`, with its distance.
pub open spec fn closest_fold(cands: Seq<usize>, col: usize) -> (Option<usize>, int)
    decreases cands.len(),
{
    if cands.len() == 0 {
        (None, usize::MAX as int)
    } else {
        let (c, d) = closest_fold(cands.drop_last(), col);
        let dd = col_distance(cands.last(), col);
        if dd < d {
            (Some(cands.last()), dd)
        } else {
            (c, d)
        }
    }
}

/// The column a vertical arrow at `col` snaps to, if any box offers one.
pub open spec fn alignment_column(boxes: Seq<BoxV>, col: usize) -> Option<usize> {
    closest_fold(all_candidates(boxes), col).0
}

/// A vertical arrow moved to its snap column.
pub open spec fn align_arrow(boxes: Seq<BoxV>, a: VerticalArrow) -> VerticalArrow {
    match alignment_column(boxes, a.col) {
        Some(c) => VerticalArrow {
            col: c,
            start_row: a.start_row,
            end_row: a.end_row,
            arrow_type: a.arrow_type,
            downward: a.downward,
            arrow_char: a.arrow_char,
        },
        None => a,
    }
}

/// The inventory that `align_vertical_arrows` produces.
pub open spec fn vertical_spec(inv: InventoryV) -> InventoryV {
    InventoryV {
        boxes: inv.boxes,
        horizontal_arrows: inv.horizontal_arrows,
        vertical_arrows: inv.vertical_arrows.map_values(|a: VerticalArrow| align_arrow(inv.boxes, a)),
        text_rows: inv.text_rows,
        connection_lines: inv.connection_lines,
        labels: inv.labels,
    }
}

fn distance(a: usize, b: usize) -> (d: usize)
    ensures
        d == col_distance(a, b),
{
    if a >= b {
        a - b
    } else {
        b - a
    }
}

fn midpoint(a: usize, b: usize) -> (m: usize)
    ensures
        m == (a + b) / 2,
{
    let r = a / 2 + b / 2 + (a % 2 + b % 2) / 2;
    assert(r == (a + b) / 2) by (nonlinear_arith)
        requires
            r == a / 2 + b / 2 + (a % 2 + b % 2) / 2,
    ;
    r
}

/// Find the nearest box column alignment for a given column position.
fn find_alignment_column(boxes: &[DiagramBox], col: usize) -> (r: Option<usize>)
    ensures
        r == alignment_column(boxes@.map_values(|b: DiagramBox| b@), col),
{
    let ghost bv = boxes@.map_values(|b: DiagramBox| b@);
    let mut closest_col: Option<usize> = None;
    let mut min_distance: usize = usize::MAX;
    let mut i: usize = 0;
    while i < boxes.len()
        invariant
            i <= boxes@.len(),
            bv == boxes@.map_values(|b: DiagramBox| b@),
            (closest_col, min_distance as int) == closest_fold(all_candidates(bv.take(i as int)), col),
        decreases boxes@.len() - i,
    {
        let b = &boxes[i];
        let ghost acc = all_candidates(bv.take(i as int));
        let left_col = b.top_left.1;
        let center_col = midpoint(b.top_left.1, b.bottom_right.1);
        let right_col = b.bottom_right.1;
        let ghost s1 = acc.push(left_col);
        let ghost s2 = s1.push(center_col);
        let ghost s3 = s2.push(right_col);
        proof {
            assert(bv[i as int] == b@);
            assert(bv.take(i + 1).drop_last() =~= bv.take(i as int));
            assert(all_candidates(bv.take(i + 1)) =~= s3);
            assert(s1.drop_last() =~= acc);
            assert(s2.drop_last() =~= s1);
            assert(s3.drop_last() =~= s2);
        }
        let d = distance(left_col, col);
        if d < min_distance {
            min_distance = d;
            closest_col = Some(left_col);
        }
        assert((closest_col, min_distance as int) == closest_fold(s1, col));
        let d = distance(center_col, col);
        if d < min_distance {
            min_distance = d;
            closest_col = Some(center_col);
        }
        assert((closest_col, min_distance as int) == closest_fold(s2, col));
        let d = distance(right_col, col);
        if d < min_distance {
            min_distance = d;
            closest_col = Some(right_col);
        }
        assert((closest_col, min_distance as int) == closest_fold(s3, col));
        i += 1;
    }
    assert(bv.take(i as int) =~= bv);
    closest_col
}

/// Align vertical arrows to box column positions.
///
/// Each vertical arrow moves to the nearest left border, centre or right
/// border column of any box (the first such column on ties); rows stay.
pub fn align_vertical_arrows(inventory: &PrimitiveInventory) -> (r: PrimitiveInventory)
    ensures
        r@ == vertical_spec(inventory@),
{
    let ghost inv = inventory@;
    let ghost target = inv.vertical_arrows.map_values(|a: VerticalArrow| align_arrow(inv.boxes, a));
    let mut arrows: Vec<VerticalArrow> = Vec::new();
    let mut i: usize = 0;
    while i < inventory.vertical_arrows.len()
        invariant
            i <= inventory.vertical_arrows.len(),
            inv == inventory@,
            target == inv.vertical_arrows.map_values(|a: VerticalArrow| align_arrow(inv.boxes, a)),
            arrows@.len() == i,
            forall|k: int| 0 <= k < i ==> #[trigger] arrows@[k] == target[k],
        decreases inventory.vertical_arrows.len() - i,
    {
        let mut a = inventory.vertical_arrows[i];
        proof { assert(inv.vertical_arrows[i as int] == a); }
        match find_alignment_column(inventory.boxes.as_slice(), a.col) {
            Some(c) => { a.col = c; },
            None => {},
        }
        arrows.push(a);
        i += 1;
    }
    assert(arrows@ =~= target);
    PrimitiveInventory {
        boxes: copy_boxes(&inventory.boxes),
        horizontal_arrows: copy_vec(&inventory.horizontal_arrows),
        vertical_arrows: arrows,
        text_rows: copy_text_rows(&inventory.text_rows),
        connection_lines: copy_connection_lines(&inventory.connection_lines),
        labels: copy_labels(&inventory.labels),
    }
}

pub proof fn lemma_closest_member(cands: Seq<usize>, col: usize)
    ensures
        match closest_fold(cands, col).0 {
            Some(c) => cands.contains(c),
            None => true,
        },
    decreases cands.len(),
{
    if cands.len() > 0 {
        lemma_closest_member(cands.drop_last(), col);
        let (c, d) = closest_fold(cands.drop_last(), col);
        match c {
            Some(x) => {
                let i = choose|i: int| 0 <= i < cands.drop_last().len() && cands.drop_last()[i] == x;
                assert(cands[i] == x);
            },
            None => {},
        }
        assert(cands[cands.len() - 1] == cands.last());
    }
}

proof fn lemma_closest_exact(cands: Seq<usize>, col: usize)
    requires
        cands.contains(col),
    ensures
        closest_fold(cands, col) == (Some(col), 0int),
    decreases cands.len(),
{
    let n = cands.len();
    if cands.last() == col {
        if cands.drop_last().contains(col) {
            lemma_closest_exact(cands.drop_last(), col);
        } else {
            lemma_closest_dist_nonneg(cands.drop_last(), col);
            let (c, d) = closest_fold(cands.drop_last(), col);
            if d == 0 {
                lemma_closest_zero(cands.drop_last(), col);
            }
        }
    } else {
        let i = choose|i: int| 0 <= i < n && cands[i] == col;
        assert(cands.drop_last()[i] == col);
        lemma_closest_exact(cands.drop_last(), col);
    }
}

proof fn lemma_closest_dist_nonneg(cands: Seq<usize>, col: usize)
    ensures
        closest_fold(cands, col).1 >= 0,
    decreases cands.len(),
{
    if cands.len() > 0 {
        lemma_closest_dist_nonneg(cands.drop_last(), col);
    }
}

proof fn lemma_closest_zero(cands: Seq<usize>, col: usize)
    requires
        closest_fold(cands, col).1 == 0,
    ensures
        closest_fold(cands, col).0 == Some(col),
    decreases cands.len(),
{
    if cands.len() > 0 {
        let (c, d) = closest_fold(cands.drop_last(), col);
        if d == 0 {
            lemma_closest_zero(cands.drop_last(), col);
        }
    }
}

/// Aligning vertical arrows a second time changes nothing: an arrow already
/// on a snap column stays there.
pub proof fn law_vertical_alignment_idempotent(inv: InventoryV)
    ensures
        vertical_spec(vertical_spec(inv)) == vertical_spec(inv),
{
    let once = vertical_spec(inv);
    let twice = vertical_spec(once);
    assert forall|k: int| 0 <= k < inv.vertical_arrows.len() implies #[trigger] twice.vertical_arrows[k]
        == once.vertical_arrows[k] by {
        let a = inv.vertical_arrows[k];
        let cands = all_candidates(inv.boxes);
        lemma_closest_member(cands, a.col);
        match alignment_column(inv.boxes, a.col) {
            Some(c) => {
                lemma_closest_exact(cands, c);
            },
            None => {},
        }
    }
    assert(twice.vertical_arrows =~= once.vertical_arrows);
}

// ---------------------------------------------------------------------------
// Horizontal arrows
// ---------------------------------------------------------------------------

/// Arrow `a` comes strictly before `b`: by row, then by start column.
pub open spec fn arrow_before(a: HorizontalArrow, b: HorizontalArrow) -> bool {
    a.row < b.row || (a.row == b.row && a.start_col < b.start_col)
}

/// Where `a` goes into `s`: after the last arrow that `a` does not come
/// strictly before.
pub open spec fn insert_pos(s: Seq<HorizontalArrow>, a: HorizontalArrow) -> int
    decreases s.len(),
{
    if s.len() == 0 {
        0
    } else if arrow_before(a, s.last()) {
        insert_pos(s.drop_last(), a)
    } else {
        s.len() as int
    }
}

/// `s` with `a` inserted at its place.
pub open spec fn insert_arrow(s: Seq<HorizontalArrow>, a: HorizontalArrow) -> Seq<HorizontalArrow> {
    s.insert(insert_pos(s, a), a)
}

/// The arrows in stable order by row, then start column.
pub open spec fn sort_arrows(s: Seq<HorizontalArrow>) -> Seq<HorizontalArrow>
    decreases s.len(),
{
    if s.len() == 0 {
        Seq::empty()
    } else {
        insert_arrow(sort_arrows(s.drop_last()), s.last())
    }
}

/// No arrow comes strictly before an earlier one.
pub open spec fn arrows_sorted(s: Seq<HorizontalArrow>) -> bool {
    forall|i: int, j: int| 0 <= i < j < s.len() ==> !arrow_before(#[trigger] s[j], #[trigger] s[i])
}

/// The inventory that `align_horizontal_arrows` produces.
pub open spec fn horizontal_spec(inv: InventoryV) -> InventoryV {
    InventoryV {
        boxes: inv.boxes,
        horizontal_arrows: sort_arrows(inv.horizontal_arrows),
        vertical_arrows: inv.vertical_arrows,
        text_rows: inv.text_rows,
        connection_lines: inv.connection_lines,
        labels: inv.labels,
    }
}

pub proof fn lemma_insert_pos(s: Seq<HorizontalArrow>, a: HorizontalArrow)
    ensures
        0 <= insert_pos(s, a) <= s.len(),
        forall|q: int| insert_pos(s, a) <= q < s.len() ==> arrow_before(a, #[trigger] s[q]),
        insert_pos(s, a) > 0 ==> !arrow_before(a, s[insert_pos(s, a) - 1]),
    decreases s.len(),
{
    if s.len() > 0 {
        lemma_insert_pos(s.drop_last(), a);
        assert forall|q: int| 0 <= q < s.len() - 1 implies #[trigger] s[q] == s.drop_last()[q] by {}
    }
}

/// The position found by scanning back from the end is `insert_pos`.
proof fn lemma_insert_pos_unique(s: Seq<HorizontalArrow>, a: HorizontalArrow, p: int)
    requires
        0 <= p <= s.len(),
        forall|q: int| p <= q < s.len() ==> arrow_before(a, #[trigger] s[q]),
        p > 0 ==> !arrow_before(a, s[p - 1]),
    ensures
        p == insert_pos(s, a),
{
    lemma_insert_pos(s, a);
    let ip = insert_pos(s, a);
    if p < ip {
        assert(arrow_before(a, s[ip - 1]));
    } else if p > ip {
        assert(arrow_before(a, s[p - 1]));
    }
}

proof fn lemma_insert_sorted(s: Seq<HorizontalArrow>, a: HorizontalArrow)
    requires
        arrows_sorted(s),
    ensures
        arrows_sorted(insert_arrow(s, a)),
{
    lemma_insert_pos(s, a);
    let p = insert_pos(s, a);
    let t = insert_arrow(s, a);
    assert forall|i: int, j: int| 0 <= i < j < t.len() implies !arrow_before(
        #[trigger] t[j],
        #[trigger] t[i],
    ) by {
        if j < p {
            assert(t[i] == s[i] && t[j] == s[j]);
        } else if j == p {
            assert(t[i] == s[i] && t[j] == a);
            assert(i == p - 1 || !arrow_before(s[p - 1], s[i]));
            assert(!arrow_before(a, s[p - 1]));
        } else if i < p {
            assert(t[i] == s[i] && t[j] == s[j - 1]);
        } else if i == p {
            assert(t[i] == a && t[j] == s[j - 1]);
            assert(arrow_before(a, s[j - 1]));
        } else {
            assert(t[i] == s[i - 1] && t[j] == s[j - 1]);
        }
    }
}

proof fn lemma_sort_sorted(s: Seq<HorizontalArrow>)
    ensures
        arrows_sorted(sort_arrows(s)),
        sort_arrows(s).len() == s.len(),
    decreases s.len(),
{
    if s.len() > 0 {
        lemma_sort_sorted(s.drop_last());
        lemma_insert_sorted(sort_arrows(s.drop_last()), s.last());
        lemma_insert_pos(sort_arrows(s.drop_last()), s.last());
    }
}

proof fn lemma_sort_arrows_perm(s: Seq<HorizontalArrow>)
    ensures
        sort_arrows(s).to_multiset() == s.to_multiset(),
    decreases s.len(),
{
    if s.len() > 0 {
        let d = s.drop_last();
        lemma_sort_arrows_perm(d);
        let t = sort_arrows(d);
        lemma_insert_pos(t, s.last());
        vstd::seq_lib::to_multiset_insert(t, insert_pos(t, s.last()), s.last());
        vstd::seq_lib::to_multiset_build(d, s.last());
        assert(d.push(s.last()) =~= s);
        assert(sort_arrows(s) == t.insert(insert_pos(t, s.last()), s.last()));
    } else {
        assert(s =~= Seq::<HorizontalArrow>::empty());
        assert(sort_arrows(s) =~= s);
    }
}

/// Aligning horizontal arrows puts them in order of row, then start
/// column, keeping every arrow (a permutation).
pub proof fn law_horizontal_alignment_sorts(inv: InventoryV)
    ensures
        arrows_sorted(horizontal_spec(inv).horizontal_arrows),
        horizontal_spec(inv).horizontal_arrows.to_multiset() == inv.horizontal_arrows.to_multiset(),
{
    lemma_sort_sorted(inv.horizontal_arrows);
    lemma_sort_arrows_perm(inv.horizontal_arrows);
}

/// The arrows that start at the same row and column as `k`.
pub open spec fn at_place(k: HorizontalArrow) -> spec_fn(HorizontalArrow) -> bool {
    |x: HorizontalArrow| x.row == k.row && x.start_col == k.start_col
}

proof fn lemma_sort_arrows_stable(s: Seq<HorizontalArrow>, k: HorizontalArrow)
    ensures
        sort_arrows(s).filter(at_place(k)) == s.filter(at_place(k)),
    decreases s.len(),
{
    let pred = at_place(k);
    if s.len() > 0 {
        let d = s.drop_last();
        let a = s.last();
        lemma_sort_arrows_stable(d, k);
        let t = sort_arrows(d);
        lemma_sort_sorted(d);
        lemma_insert_pos(t, a);
        let p = insert_pos(t, a);
        let lo = t.subrange(0, p);
        let hi = t.subrange(p, t.len() as int);
        assert(t.insert(p, a) =~= lo.push(a) + hi);
        assert(t =~= lo + hi);
        Seq::filter_distributes_over_add(lo.push(a), hi, pred);
        Seq::filter_distributes_over_add(lo, hi, pred);
        lo.lemma_filter_push(a, pred);
        d.lemma_filter_push(a, pred);
        assert(d.push(a) =~= s);
        if pred(a) {
            assert(hi.all(|x: HorizontalArrow| !pred(x))) by {
                assert forall|q: int| 0 <= q < hi.len() implies !pred(#[trigger] hi[q]) by {
                    assert(hi[q] == t[p + q]);
                    assert(arrow_before(a, t[p + q]));
                }
            }
            hi.lemma_all_neg_filter_empty(pred);
            assert(hi.filter(pred) =~= Seq::<HorizontalArrow>::empty());
            assert(lo.push(a).filter(pred) + hi.filter(pred) =~= lo.push(a).filter(pred));
            assert(lo.filter(pred) + hi.filter(pred) =~= lo.filter(pred));
        }
    }
}

/// Aligning horizontal arrows is stable: the arrows that start at one
/// place keep the order they had.
pub proof fn law_horizontal_alignment_stable(inv: InventoryV, k: HorizontalArrow)
    ensures
        horizontal_spec(inv).horizontal_arrows.filter(at_place(k)) == inv.horizontal_arrows.filter(
            at_place(k),
        ),
{
    lemma_sort_arrows_stable(inv.horizontal_arrows, k);
}

proof fn lemma_sort_of_sorted(s: Seq<HorizontalArrow>)
    requires
        arrows_sorted(s),
    ensures
        sort_arrows(s) == s,
    decreases s.len(),
{
    if s.len() > 0 {
        let d = s.drop_last();
        assert(arrows_sorted(d)) by {
            assert forall|i: int, j: int| 0 <= i < j < d.len() implies !arrow_before(
                #[trigger] d[j],
                #[trigger] d[i],
            ) by {
                assert(d[i] == s[i] && d[j] == s[j]);
            }
        }
        lemma_sort_of_sorted(d);
        if d.len() > 0 {
            assert(d.last() == s[s.len() - 2]);
            assert(!arrow_before(s[s.len() - 1], s[s.len() - 2]));
        }
        assert(insert_pos(d, s.last()) == d.len());
        assert(d.insert(d.len() as int, s.last()) =~= s);
    }
}

/// Aligning horizontal arrows a second time changes nothing.
pub proof fn law_horizontal_alignment_idempotent(inv: InventoryV)
    ensures
        horizontal_spec(horizontal_spec(inv)) == horizontal_spec(inv),
{
    lemma_sort_sorted(inv.horizontal_arrows);
    lemma_sort_of_sorted(sort_arrows(inv.horizontal_arrows));
}

/// Align horizontal arrows to consistent positions.
///
/// The arrows come out grouped by row in ascending row order, each row's
/// arrows by start column, arrows that tie keeping their order.
pub fn align_horizontal_arrows(inventory: &PrimitiveInventory) -> (r: PrimitiveInventory)
    ensures
        r@ == horizontal_spec(inventory@),
{
    let ghost src = inventory.horizontal_arrows@;
    let mut sorted: Vec<HorizontalArrow> = Vec::new();
    let mut i: usize = 0;
    while i < inventory.horizontal_arrows.len()
        invariant
            i <= src.len(),
            src == inventory.horizontal_arrows@,
            sorted@ == sort_arrows(src.take(i as int)),
            sorted@.len() == i,
        decreases src.len() - i,
    {
        let a = inventory.horizontal_arrows[i];
        let mut j: usize = sorted.len();
        while j > 0 && (a.row < sorted[j - 1].row || (a.row == sorted[j - 1].row && a.start_col
            < sorted[j - 1].start_col))
            invariant
                j <= sorted@.len(),
                forall|q: int| j <= q < sorted@.len() ==> arrow_before(a, #[trigger] sorted@[q]),
            decreases j,
        {
            j -= 1;
        }
        proof {
            lemma_insert_pos_unique(sorted@, a, j as int);
            assert(src.take(i + 1).drop_last() =~= src.take(i as int));
            assert(src.take(i + 1).last() == a);
        }
        sorted.insert(j, a);
        i += 1;
    }
    assert(src.take(i as int) =~= src);
    PrimitiveInventory {
        boxes: copy_boxes(&inventory.boxes),
        horizontal_arrows: sorted,
        vertical_arrows: copy_vec(&inventory.vertical_arrows),
        text_rows: copy_text_rows(&inventory.text_rows),
        connection_lines: copy_connection_lines(&inventory.connection_lines),
        labels: copy_labels(&inventory.labels),
    }
}

// ---------------------------------------------------------------------------
// Connection lines and labels
// ---------------------------------------------------------------------------

/// Normalize connection lines: the inventory is returned unchanged, so that
/// no connection is moved on an ambiguous reading.
pub fn normalize_connection_lines(inventory: &PrimitiveInventory) -> (r: PrimitiveInventory)
    ensures
        r@ == inventory@,
{
    inventory.copy()
}

/// Normalize labels: the inventory is returned unchanged, so that every
/// label keeps its position and offset.
pub fn normalize_labels(inventory: &PrimitiveInventory) -> (r: PrimitiveInventory)
    ensures
        r@ == inventory@,
{
    inventory.copy()
}

// ---------------------------------------------------------------------------
// Nested boxes
// ---------------------------------------------------------------------------

pub open spec fn min_i(a: int, b: int) -> int {
    if a <= b {
        a
    } else {
        b
    }
}

pub open spec fn max_i(a: int, b: int) -> int {
    if a >= b {
        a
    } else {
        b
    }
}

/// `a - 1`, but not below 0.
pub open spec fn dec_sat(a: int) -> int {
    if a >= 1 {
        a - 1
    } else {
        0
    }
}

/// Bounds (top, left, bottom, right) grown from `init` to hold each listed
/// child that exists, with one cell of margin around it.
pub open spec fn child_bounds(boxes: Seq<BoxV>, kids: Seq<usize>, init: (int, int, int, int)) -> (
    int,
    int,
    int,
    int,
)
    decreases kids.len(),
{
    if kids.len() == 0 {
        init
    } else {
        let acc = child_bounds(boxes, kids.drop_last(), init);
        let k = kids.last() as int;
        if k < boxes.len() {
            let c = boxes[k];
            (
                min_i(acc.0, dec_sat(c.top_left.0 as int)),
                min_i(acc.1, dec_sat(c.top_left.1 as int)),
                max_i(acc.2, c.bottom_right.0 + 1),
                max_i(acc.3, c.bottom_right.1 + 1),
            )
        } else {
            acc
        }
    }
}

/// The corners of a box as bounds.
pub open spec fn corners(b: BoxV) -> (int, int, int, int) {
    (b.top_left.0 as int, b.top_left.1 as int, b.bottom_right.0 as int, b.bottom_right.1 as int)
}

/// The boxes with box `p` grown to hold its children.
pub open spec fn expand_parent(boxes: Seq<BoxV>, p: int) -> Seq<BoxV> {
    let b = boxes[p];
    if b.child_indices.len() == 0 {
        boxes
    } else {
        let g = child_bounds(boxes, b.child_indices, corners(b));
        boxes.update(
            p,
            BoxV {
                top_left: (g.0 as usize, g.1 as usize),
                bottom_right: (g.2 as usize, g.3 as usize),
                style: b.style,
                parent_idx: b.parent_idx,
                child_indices: b.child_indices,
            },
        )
    }
}

/// The box at `k` lists children.
pub open spec fn is_parent(boxes: Seq<BoxV>, k: int) -> bool {
    0 <= k < boxes.len() && boxes[k].child_indices.len() > 0
}

/// A parent none of whose listed children has children of its own.
pub open spec fn lvl1(boxes: Seq<BoxV>, k: int) -> bool {
    &&& is_parent(boxes, k)
    &&& forall|q: int| 0 <= q < boxes[k].child_indices.len() ==> !is_parent(boxes, #[trigger] boxes[k].child_indices[q] as int)
}

/// A parent, not of level 1, each of whose listed children has no children
/// or is of level 1.
pub open spec fn lvl2(boxes: Seq<BoxV>, k: int) -> bool {
    &&& is_parent(boxes, k)
    &&& !lvl1(boxes, k)
    &&& forall|q: int| 0 <= q < boxes[k].child_indices.len() ==> {
        let c = #[trigger] boxes[k].child_indices[q] as int;
        !is_parent(boxes, c) || lvl1(boxes, c)
    }
}

/// The nesting level of a box: 1 for a parent of boxes without children,
/// 2 for a parent of such parents, 0 for a box without children and for a
/// box more than three boxes deep (left alone).
pub open spec fn level(boxes: Seq<BoxV>, k: int) -> int {
    if lvl1(boxes, k) {
        1
    } else if lvl2(boxes, k) {
        2
    } else {
        0
    }
}

/// The boxes `acc` after growing, in index order, the first `n` boxes of
/// level `l` (levels read from `orig`).
pub open spec fn nest_pass(orig: Seq<BoxV>, acc: Seq<BoxV>, l: int, n: int) -> Seq<BoxV>
    decreases n,
{
    if n <= 0 {
        acc
    } else {
        let prev = nest_pass(orig, acc, l, n - 1);
        if level(orig, n - 1) == l {
            expand_parent(prev, n - 1)
        } else {
            prev
        }
    }
}

/// The boxes after nesting: innermost parents first (level 1), then their
/// parents (level 2).
pub open spec fn nested_boxes(boxes: Seq<BoxV>) -> Seq<BoxV> {
    let n = boxes.len() as int;
    nest_pass(boxes, nest_pass(boxes, boxes, 1, n), 2, n)
}

/// The inventory that `normalize_nested_boxes` produces.
pub open spec fn nested_spec(inv: InventoryV) -> InventoryV {
    InventoryV {
        boxes: nested_boxes(inv.boxes),
        horizontal_arrows: inv.horizontal_arrows,
        vertical_arrows: inv.vertical_arrows,
        text_rows: inv.text_rows,
        connection_lines: inv.connection_lines,
        labels: inv.labels,
    }
}

/// Every box corner is at most `bound`.
pub open spec fn corners_within(boxes: Seq<BoxV>, bound: int) -> bool {
    forall|k: int| 0 <= k < boxes.len() ==> {
        let b = #[trigger] boxes[k];
        &&& b.top_left.0 <= bound
        &&& b.top_left.1 <= bound
        &&& b.bottom_right.0 <= bound
        &&& b.bottom_right.1 <= bound
    }
}

/// Inputs on which `normalize_nested_boxes` computes without overflow.
pub open spec fn nested_ok(inv: InventoryV) -> bool {
    &&& corners_within(inv.boxes, 8 * MAX_COORD)
    &&& inv.boxes.len() <= MAX_COORD
}

proof fn lemma_child_bounds_within(boxes: Seq<BoxV>, kids: Seq<usize>, init: (int, int, int, int), bound: int)
    requires
        corners_within(boxes, bound),
        0 <= init.0 <= bound + 1,
        0 <= init.1 <= bound + 1,
        0 <= init.2 <= bound + 1,
        0 <= init.3 <= bound + 1,
    ensures
        0 <= child_bounds(boxes, kids, init).0 <= bound + 1,
        0 <= child_bounds(boxes, kids, init).1 <= bound + 1,
        0 <= child_bounds(boxes, kids, init).2 <= bound + 1,
        0 <= child_bounds(boxes, kids, init).3 <= bound + 1,
        child_bounds(boxes, kids, init).0 <= init.0,
        child_bounds(boxes, kids, init).1 <= init.1,
        child_bounds(boxes, kids, init).2 >= init.2,
        child_bounds(boxes, kids, init).3 >= init.3,
    decreases kids.len(),
{
    if kids.len() > 0 {
        lemma_child_bounds_within(boxes, kids.drop_last(), init, bound);
        let k = kids.last() as int;
        if k < boxes.len() {
            assert(boxes[k].top_left.0 <= bound);
        }
    }
}

/// The listed children of a box of level `l` are of another level.
proof fn lemma_kid_levels(orig: Seq<BoxV>, k: int, l: int)
    requires
        0 <= k < orig.len(),
        level(orig, k) == l,
        l == 1 || l == 2,
    ensures
        forall|q: int| 0 <= q < orig[k].child_indices.len() ==> level(orig, #[trigger] orig[k].child_indices[q] as int) != l,
{
    assert forall|q: int| 0 <= q < orig[k].child_indices.len() implies level(orig, #[trigger] orig[k].child_indices[q] as int) != l by {
        let c = orig[k].child_indices[q] as int;
        if l == 1 {
            assert(lvl1(orig, k));
            assert(!is_parent(orig, c));
        } else {
            assert(lvl2(orig, k));
            assert(!is_parent(orig, c) || lvl1(orig, c));
        }
    }
}

/// What a pass does: each box of level `l` among the first `n` is grown to
/// hold its children as they were before the pass, the others stay; every
/// corner grows by at most one past the bound.
proof fn lemma_pass(orig: Seq<BoxV>, acc: Seq<BoxV>, l: int, n: int, bound: int)
    requires
        0 <= n <= orig.len(),
        acc.len() == orig.len(),
        l == 1 || l == 2,
        forall|k: int| 0 <= k < orig.len() ==> (#[trigger] acc[k]).child_indices == orig[k].child_indices,
        corners_within(acc, bound),
        0 <= bound < usize::MAX - 1,
    ensures
        nest_pass(orig, acc, l, n).len() == acc.len(),
        forall|k: int| 0 <= k < orig.len() ==> #[trigger] nest_pass(orig, acc, l, n)[k] == if k < n && level(orig, k) == l {
            grown(acc, k)
        } else {
            acc[k]
        },
        forall|k: int| 0 <= k < orig.len() ==> (#[trigger] nest_pass(orig, acc, l, n)[k]).child_indices == orig[k].child_indices,
        corners_within(nest_pass(orig, acc, l, n), bound + 1),
    decreases n,
{
    if n > 0 {
        lemma_pass(orig, acc, l, n - 1, bound);
        let prev = nest_pass(orig, acc, l, n - 1);
        let p = n - 1;
        if level(orig, p) == l {
            lemma_kid_levels(orig, p, l);
            let kids = acc[p].child_indices;
            assert(prev[p] == acc[p]);
            assert(kids.len() > 0);
            assert forall|q: int| 0 <= q < kids.len() && (#[trigger] kids[q]) < prev.len() implies prev[kids[q] as int]
                == acc[kids[q] as int] by {
                assert(kids[q] == orig[p].child_indices[q]);
                assert(level(orig, kids[q] as int) != l);
            }
            lemma_cb_same(prev, acc, kids, corners(acc[p]));
            lemma_child_bounds_within(acc, kids, corners(acc[p]), bound);
        }
        let cur = nest_pass(orig, acc, l, n);
        assert forall|k: int| 0 <= k < cur.len() implies {
            let b = #[trigger] cur[k];
            &&& b.top_left.0 <= bound + 1
            &&& b.top_left.1 <= bound + 1
            &&& b.bottom_right.0 <= bound + 1
            &&& b.bottom_right.1 <= bound + 1
        } by {
            if k < n && level(orig, k) == l {
                assert(cur[k] == grown(acc, k));
                let kids = acc[k].child_indices;
                lemma_child_bounds_within(acc, kids, corners(acc[k]), bound);
            } else {
                assert(cur[k] == acc[k]);
            }
        }
    }
}

/// Bounds grown to hold the children of a box, computed.
fn grow_to_children(boxes: &Vec<DiagramBox>, kids: &Vec<usize>, init: (usize, usize, usize, usize), Ghost(bound): Ghost<int>) -> (g: (usize, usize, usize, usize))
    requires
        corners_within(boxes@.map_values(|b: DiagramBox| b@), bound),
        bound + 1 < usize::MAX,
        init.0 <= bound + 1,
        init.1 <= bound + 1,
        init.2 <= bound + 1,
        init.3 <= bound + 1,
    ensures
        (g.0 as int, g.1 as int, g.2 as int, g.3 as int) == child_bounds(
            boxes@.map_values(|b: DiagramBox| b@),
            kids@,
            (init.0 as int, init.1 as int, init.2 as int, init.3 as int),
        ),
{
    let ghost bv = boxes@.map_values(|b: DiagramBox| b@);
    let ghost i0 = (init.0 as int, init.1 as int, init.2 as int, init.3 as int);
    let mut min_row = init.0;
    let mut min_col = init.1;
    let mut max_row = init.2;
    let mut max_col = init.3;
    let mut i: usize = 0;
    while i < kids.len()
        invariant
            i <= kids.len(),
            bv == boxes@.map_values(|b: DiagramBox| b@),
            corners_within(bv, bound),
            bound + 1 < usize::MAX,
            0 <= i0.0 <= bound + 1,
            0 <= i0.1 <= bound + 1,
            0 <= i0.2 <= bound + 1,
            0 <= i0.3 <= bound + 1,
            (min_row as int, min_col as int, max_row as int, max_col as int) == child_bounds(
                bv,
                kids@.take(i as int),
                i0,
            ),
        decreases kids.len() - i,
    {
        proof {
            lemma_child_bounds_within(bv, kids@.take(i as int), i0, bound);
            assert(kids@.take(i + 1).drop_last() =~= kids@.take(i as int));
            assert(kids@.take(i + 1).last() == kids@[i as int]);
        }
        let child_idx = kids[i];
        if child_idx < boxes.len() {
            let child = &boxes[child_idx];
            proof {
                assert(bv[child_idx as int] == child@);
            }
            let a = if child.top_left.0 >= 1 { child.top_left.0 - 1 } else { 0 };
            let b = if child.top_left.1 >= 1 { child.top_left.1 - 1 } else { 0 };
            if a < min_row {
                min_row = a;
            }
            if b < min_col {
                min_col = b;
            }
            if child.bottom_right.0 + 1 > max_row {
                max_row = child.bottom_right.0 + 1;
            }
            if child.bottom_right.1 + 1 > max_col {
                max_col = child.bottom_right.1 + 1;
            }
        }
        i += 1;
    }
    assert(kids@.take(i as int) =~= kids@);
    (min_row, min_col, max_row, max_col)
}

/// Whether each box lists children.
fn parent_flags(boxes: &Vec<DiagramBox>) -> (r: Vec<bool>)
    ensures
        r@.len() == boxes@.len(),
        forall|k: int| 0 <= k < boxes@.len() ==> #[trigger] r@[k] == is_parent(boxes@.map_values(|b: DiagramBox| b@), k),
{
    let ghost bv = boxes@.map_values(|b: DiagramBox| b@);
    let mut r: Vec<bool> = Vec::new();
    let mut k: usize = 0;
    while k < boxes.len()
        invariant
            k <= boxes@.len(),
            bv == boxes@.map_values(|b: DiagramBox| b@),
            r@.len() == k,
            forall|j: int| 0 <= j < k ==> #[trigger] r@[j] == is_parent(bv, j),
        decreases boxes@.len() - k,
    {
        proof { assert(bv[k as int] == boxes@[k as int]@); }
        r.push(boxes[k].child_indices.len() > 0);
        k += 1;
    }
    r
}

/// Whether every listed child of `kids` passes the test `flags` (read as
/// false out of range), negated or not.
fn all_kids(kids: &Vec<usize>, flags: &Vec<bool>, want: bool) -> (b: bool)
    ensures
        b == forall|q: int| 0 <= q < kids@.len() ==> ((#[trigger] kids@[q]) < flags@.len() && flags@[kids@[q] as int]) == want,
{
    let mut i: usize = 0;
    while i < kids.len()
        invariant
            i <= kids@.len(),
            forall|q: int| 0 <= q < i ==> ((#[trigger] kids@[q]) < flags@.len() && flags@[kids@[q] as int]) == want,
        decreases kids@.len() - i,
    {
        let c = kids[i];
        let f = c < flags.len() && flags[c];
        if f != want {
            return false;
        }
        i += 1;
    }
    true
}

/// The nesting level of every box.
fn nesting_levels(boxes: &Vec<DiagramBox>) -> (r: Vec<u8>)
    ensures
        r@.len() == boxes@.len(),
        forall|k: int| 0 <= k < boxes@.len() ==> #[trigger] r@[k] as int == level(boxes@.map_values(|b: DiagramBox| b@), k),
{
    let ghost bv = boxes@.map_values(|b: DiagramBox| b@);
    let parents = parent_flags(boxes);
    let mut one: Vec<bool> = Vec::new();
    let mut k: usize = 0;
    while k < boxes.len()
        invariant
            k <= boxes@.len(),
            bv == boxes@.map_values(|b: DiagramBox| b@),
            parents@.len() == boxes@.len(),
            forall|j: int| 0 <= j < boxes@.len() ==> #[trigger] parents@[j] == is_parent(bv, j),
            one@.len() == k,
            forall|j: int| 0 <= j < k ==> #[trigger] one@[j] == lvl1(bv, j),
        decreases boxes@.len() - k,
    {
        proof { assert(bv[k as int] == boxes@[k as int]@); }
        let kids = &boxes[k].child_indices;
        let none_parent = all_kids(kids, &parents, false);
        proof {
            assert(kids@ == bv[k as int].child_indices);
            assert(none_parent == forall|q: int| 0 <= q < bv[k as int].child_indices.len() ==> !is_parent(bv, #[trigger] bv[k as int].child_indices[q] as int)) by {
                assert forall|q: int| 0 <= q < kids@.len() implies ((#[trigger] kids@[q]) < parents@.len() && parents@[kids@[q] as int]) == is_parent(bv, kids@[q] as int) by {
                    if kids@[q] < parents@.len() {
                        assert(parents@[kids@[q] as int] == is_parent(bv, kids@[q] as int));
                    }
                }
            }
        }
        one.push(parents[k] && none_parent);
        k += 1;
    }
    let mut r: Vec<u8> = Vec::new();
    let mut k: usize = 0;
    while k < boxes.len()
        invariant
            k <= boxes@.len(),
            bv == boxes@.map_values(|b: DiagramBox| b@),
            parents@.len() == boxes@.len(),
            forall|j: int| 0 <= j < boxes@.len() ==> #[trigger] parents@[j] == is_parent(bv, j),
            one@.len() == boxes@.len(),
            forall|j: int| 0 <= j < boxes@.len() ==> #[trigger] one@[j] == lvl1(bv, j),
            r@.len() == k,
            forall|j: int| 0 <= j < k ==> #[trigger] r@[j] as int == level(bv, j),
        decreases boxes@.len() - k,
    {
        proof { assert(bv[k as int] == boxes@[k as int]@); }
        let kids = &boxes[k].child_indices;
        // A child that is a parent must be of level 1.
        let mut ok = true;
        let mut i: usize = 0;
        while i < kids.len()
            invariant
                i <= kids@.len(),
                kids@ == bv[k as int].child_indices,
                parents@.len() == boxes@.len(),
                one@.len() == boxes@.len(),
                bv.len() == boxes@.len(),
                forall|j: int| 0 <= j < boxes@.len() ==> #[trigger] parents@[j] == is_parent(bv, j),
                forall|j: int| 0 <= j < boxes@.len() ==> #[trigger] one@[j] == lvl1(bv, j),
                ok == forall|q: int| 0 <= q < i ==> {
                    let c = #[trigger] kids@[q] as int;
                    !is_parent(bv, c) || lvl1(bv, c)
                },
            decreases kids@.len() - i,
        {
            let c = kids[i];
            if c < parents.len() && parents[c] && !one[c] {
                ok = false;
            }
            i += 1;
        }
        let lv: u8 = if one[k] {
            1
        } else if parents[k] && ok {
            2
        } else {
            0
        };
        r.push(lv);
        k += 1;
    }
    r
}

/// One pass: the boxes of level `l` grown, in index order, to hold their
/// children.
fn grow_level(boxes: &mut Vec<DiagramBox>, levels: &Vec<u8>, l: u8, Ghost(orig): Ghost<Seq<BoxV>>, Ghost(bound): Ghost<int>)
    requires
        levels@.len() == orig.len(),
        forall|k: int| 0 <= k < orig.len() ==> #[trigger] levels@[k] as int == level(orig, k),
        old(boxes)@.len() == orig.len(),
        forall|k: int| 0 <= k < orig.len() ==> (#[trigger] old(boxes)@[k])@.child_indices == orig[k].child_indices,
        corners_within(old(boxes)@.map_values(|b: DiagramBox| b@), bound),
        0 <= bound <= 9 * MAX_COORD,
        l == 1 || l == 2,
    ensures
        final(boxes)@.map_values(|b: DiagramBox| b@) == nest_pass(orig, old(boxes)@.map_values(|b: DiagramBox| b@), l as int, orig.len() as int),
{
    let ghost start = boxes@.map_values(|b: DiagramBox| b@);
    let n = boxes.len();
    let mut p: usize = 0;
    while p < n
        invariant
            p <= n == orig.len(),
            levels@.len() == orig.len(),
            forall|k: int| 0 <= k < orig.len() ==> #[trigger] levels@[k] as int == level(orig, k),
            start.len() == orig.len(),
            forall|k: int| 0 <= k < orig.len() ==> (#[trigger] start[k]).child_indices == orig[k].child_indices,
            corners_within(start, bound),
            0 <= bound <= 9 * MAX_COORD,
            l == 1 || l == 2,
            boxes@.map_values(|b: DiagramBox| b@) == nest_pass(orig, start, l as int, p as int),
            boxes@.len() == n,
        decreases n - p,
    {
        let ghost cur = nest_pass(orig, start, l as int, p as int);
        proof {
            lemma_pass(orig, start, l as int, p as int, bound);
            assert(cur[p as int] == boxes@[p as int]@);
        }
        if levels[p] == l {
            let kids = copy_indices_of(&boxes[p]);
            let b = &boxes[p];
            let init = (b.top_left.0, b.top_left.1, b.bottom_right.0, b.bottom_right.1);
            let g = grow_to_children(&boxes, &kids, init, Ghost(bound + 1));
            let mut nb = boxes[p].copy();
            nb.top_left = (g.0, g.1);
            nb.bottom_right = (g.2, g.3);
            boxes.set(p, nb);
            proof {
                assert(kids@.len() > 0) by {
                    assert(lvl1(orig, p as int) || lvl2(orig, p as int));
                }
                assert(boxes@.map_values(|b: DiagramBox| b@) =~= expand_parent(cur, p as int));
            }
        }
        p += 1;
    }
}

/// Normalize nested boxes by expanding parents to contain their children.
///
/// Innermost parents first: each parent whose children have no children
/// grows (never shrinks) to hold every listed child that exists with one
/// cell of margin; then each parent of such parents grows the same way
/// around its grown children. Nesting more than three boxes deep is left
/// alone.
pub fn normalize_nested_boxes(inventory: &PrimitiveInventory) -> (r: PrimitiveInventory)
    requires
        nested_ok(inventory@),
    ensures
        r@ == nested_spec(inventory@),
{
    let ghost orig = inventory@.boxes;
    let levels = nesting_levels(&inventory.boxes);
    let mut boxes = copy_boxes(&inventory.boxes);
    let ghost n = orig.len() as int;
    proof {
        assert forall|k: int| 0 <= k < orig.len() implies (#[trigger] boxes@[k])@.child_indices == orig[k].child_indices by {
            assert(boxes@.map_values(|b: DiagramBox| b@)[k] == orig[k]);
        }
    }
    grow_level(&mut boxes, &levels, 1, Ghost(orig), Ghost(8 * MAX_COORD as int));
    proof {
        lemma_pass(orig, orig, 1, n, 8 * MAX_COORD as int);
        let once = nest_pass(orig, orig, 1, n);
        assert forall|k: int| 0 <= k < orig.len() implies (#[trigger] boxes@[k])@.child_indices == orig[k].child_indices by {
            assert(boxes@.map_values(|b: DiagramBox| b@)[k] == once[k]);
        }
    }
    grow_level(&mut boxes, &levels, 2, Ghost(orig), Ghost(8 * MAX_COORD as int + 1));
    PrimitiveInventory {
        boxes: boxes,
        horizontal_arrows: copy_vec(&inventory.horizontal_arrows),
        vertical_arrows: copy_vec(&inventory.vertical_arrows),
        text_rows: copy_text_rows(&inventory.text_rows),
        connection_lines: copy_connection_lines(&inventory.connection_lines),
        labels: copy_labels(&inventory.labels),
    }
}

fn copy_indices_of(b: &DiagramBox) -> (r: Vec<usize>)
    ensures
        r@ == b@.child_indices,
{
    crate::primitives::copy_indices(&b.child_indices)
}

/// The bounds hold every listed child that exists, with margin.
pub open spec fn holds_children(boxes: Seq<BoxV>, kids: Seq<usize>, y: (int, int, int, int)) -> bool {
    forall|q: int|
        0 <= q < kids.len() && (#[trigger] kids[q]) < boxes.len() ==> {
            let c = boxes[kids[q] as int];
            &&& y.0 <= dec_sat(c.top_left.0 as int)
            &&& y.1 <= dec_sat(c.top_left.1 as int)
            &&& y.2 >= c.bottom_right.0 + 1
            &&& y.3 >= c.bottom_right.1 + 1
        }
}

proof fn lemma_cb_same(b1: Seq<BoxV>, b2: Seq<BoxV>, kids: Seq<usize>, init: (int, int, int, int))
    requires
        b1.len() == b2.len(),
        forall|q: int| 0 <= q < kids.len() && (#[trigger] kids[q]) < b1.len() ==> b1[kids[q] as int]
            == b2[kids[q] as int],
    ensures
        child_bounds(b1, kids, init) == child_bounds(b2, kids, init),
    decreases kids.len(),
{
    if kids.len() > 0 {
        assert forall|q: int| 0 <= q < kids.drop_last().len() && (#[trigger] kids.drop_last()[q])
            < b1.len() implies b1[kids.drop_last()[q] as int] == b2[kids.drop_last()[q] as int] by {
            assert(kids.drop_last()[q] == kids[q]);
        }
        lemma_cb_same(b1, b2, kids.drop_last(), init);
        assert(kids.last() == kids[kids.len() - 1]);
    }
}

proof fn lemma_cb_holds(boxes: Seq<BoxV>, kids: Seq<usize>, init: (int, int, int, int))
    ensures
        holds_children(boxes, kids, child_bounds(boxes, kids, init)),
    decreases kids.len(),
{
    if kids.len() > 0 {
        lemma_cb_holds(boxes, kids.drop_last(), init);
        let y = child_bounds(boxes, kids, init);
        assert forall|q: int| 0 <= q < kids.len() && (#[trigger] kids[q]) < boxes.len() implies {
            let c = boxes[kids[q] as int];
            &&& y.0 <= dec_sat(c.top_left.0 as int)
            &&& y.1 <= dec_sat(c.top_left.1 as int)
            &&& y.2 >= c.bottom_right.0 + 1
            &&& y.3 >= c.bottom_right.1 + 1
        } by {
            if q < kids.len() - 1 {
                assert(kids.drop_last()[q] == kids[q]);
            }
        }
    }
}

proof fn lemma_cb_fixed(boxes: Seq<BoxV>, kids: Seq<usize>, y: (int, int, int, int))
    requires
        holds_children(boxes, kids, y),
    ensures
        child_bounds(boxes, kids, y) == y,
    decreases kids.len(),
{
    if kids.len() > 0 {
        assert(holds_children(boxes, kids.drop_last(), y)) by {
            assert forall|q: int| 0 <= q < kids.drop_last().len() && (#[trigger] kids.drop_last()[q])
                < boxes.len() implies {
                let c = boxes[kids.drop_last()[q] as int];
                &&& y.0 <= dec_sat(c.top_left.0 as int)
                &&& y.1 <= dec_sat(c.top_left.1 as int)
                &&& y.2 >= c.bottom_right.0 + 1
                &&& y.3 >= c.bottom_right.1 + 1
            } by {
                assert(kids.drop_last()[q] == kids[q]);
            }
        }
        lemma_cb_fixed(boxes, kids.drop_last(), y);
        assert(kids.last() == kids[kids.len() - 1]);
    }
}

/// A box grown to hold its children as they are in `boxes`.
pub open spec fn grown(boxes: Seq<BoxV>, p: int) -> BoxV {
    expand_parent(boxes, p)[p]
}

/// A pass over boxes none of which has the level changes nothing.
pub proof fn lemma_pass_identity(orig: Seq<BoxV>, acc: Seq<BoxV>, l: int, n: int)
    requires
        0 <= n <= orig.len(),
        forall|k: int| 0 <= k < orig.len() ==> #[trigger] level(orig, k) != l,
    ensures
        nest_pass(orig, acc, l, n) == acc,
    decreases n,
{
    if n > 0 {
        lemma_pass_identity(orig, acc, l, n - 1);
        assert(level(orig, n - 1) != l);
    }
}

/// Levels depend only on which children each box lists.
proof fn lemma_levels_same(a: Seq<BoxV>, b: Seq<BoxV>)
    requires
        a.len() == b.len(),
        forall|k: int| 0 <= k < a.len() ==> (#[trigger] a[k]).child_indices == b[k].child_indices,
    ensures
        forall|k: int| 0 <= k < a.len() ==> #[trigger] level(a, k) == level(b, k),
{
    assert forall|k: int| 0 <= k < a.len() implies #[trigger] level(a, k) == level(b, k) by {
        assert forall|j: int| #[trigger] is_parent(a, j) == is_parent(b, j) by {
            if 0 <= j < a.len() {
                assert(a[j].child_indices == b[j].child_indices);
            }
        }
        assert forall|j: int| #[trigger] lvl1(a, j) == lvl1(b, j) by {
            if 0 <= j < a.len() {
                assert(a[j].child_indices == b[j].child_indices);
            }
        }
        assert(a[k].child_indices == b[k].child_indices);
        assert(lvl2(a, k) == lvl2(b, k));
    }
}

/// A pass reads levels alone from the boxes it is given.
proof fn lemma_pass_levels(o1: Seq<BoxV>, o2: Seq<BoxV>, acc: Seq<BoxV>, l: int, n: int)
    requires
        0 <= n <= o1.len(),
        o1.len() == o2.len(),
        forall|k: int| 0 <= k < o1.len() ==> #[trigger] level(o1, k) == level(o2, k),
    ensures
        nest_pass(o1, acc, l, n) == nest_pass(o2, acc, l, n),
    decreases n,
{
    if n > 0 {
        lemma_pass_levels(o1, o2, acc, l, n - 1);
        assert(level(o1, n - 1) == level(o2, n - 1));
    }
}

/// A box grown around children that it already holds stays as it is.
proof fn lemma_grown_fixed(acc: Seq<BoxV>, base: Seq<BoxV>, k: int, bound: int)
    requires
        0 <= k < acc.len() == base.len(),
        acc[k] == grown(base, k),
        base[k].child_indices.len() > 0,
        forall|q: int| 0 <= q < base[k].child_indices.len() && (#[trigger] base[k].child_indices[q]) < base.len()
            ==> acc[base[k].child_indices[q] as int] == base[base[k].child_indices[q] as int],
        corners_within(base, bound),
        0 <= bound < usize::MAX - 1,
    ensures
        grown(acc, k) == acc[k],
{
    let kids = base[k].child_indices;
    let y = child_bounds(base, kids, corners(base[k]));
    lemma_child_bounds_within(base, kids, corners(base[k]), bound);
    assert(corners(acc[k]) == y);
    assert(acc[k].child_indices == kids);
    lemma_cb_same(acc, base, kids, y);
    lemma_cb_holds(base, kids, corners(base[k]));
    lemma_cb_fixed(base, kids, y);
    assert(expand_parent(acc, k)[k] == acc[k]);
}

/// The first pass of a second run changes nothing.
proof fn lemma_rerun_first(b: Seq<BoxV>)
    requires
        corners_within(b, 8 * MAX_COORD),
    ensures
        ({
            let n = b.len() as int;
            let r = nest_pass(b, nest_pass(b, b, 1, n), 2, n);
            nest_pass(b, r, 1, n) == r
        }),
{
    let n = b.len() as int;
    let bound = 8 * MAX_COORD as int;
    lemma_pass(b, b, 1, n, bound);
    let r1 = nest_pass(b, b, 1, n);
    lemma_pass(b, r1, 2, n, bound + 1);
    let r = nest_pass(b, r1, 2, n);
    lemma_pass(b, r, 1, n, bound + 2);
    let t1 = nest_pass(b, r, 1, n);
    assert forall|k: int| 0 <= k < n implies #[trigger] t1[k] == r[k] by {
        if level(b, k) == 1 {
            lemma_kid_levels(b, k, 1);
            assert(r[k] == r1[k]);
            assert(r1[k] == grown(b, k));
            assert forall|q: int| 0 <= q < b[k].child_indices.len() && (#[trigger] b[k].child_indices[q]) < b.len()
                implies r[b[k].child_indices[q] as int] == b[b[k].child_indices[q] as int] by {
                let c = b[k].child_indices[q] as int;
                assert(level(b, c) != 1);
                assert(level(b, c) != 2) by {
                    assert(!is_parent(b, c));
                }
            }
            lemma_grown_fixed(r, b, k, bound);
        }
    }
    assert(t1 =~= r);
}

/// The second pass of a second run changes nothing.
proof fn lemma_rerun_second(b: Seq<BoxV>)
    requires
        corners_within(b, 8 * MAX_COORD),
    ensures
        ({
            let n = b.len() as int;
            let r = nest_pass(b, nest_pass(b, b, 1, n), 2, n);
            nest_pass(b, r, 2, n) == r
        }),
{
    let n = b.len() as int;
    let bound = 8 * MAX_COORD as int;
    lemma_pass(b, b, 1, n, bound);
    let r1 = nest_pass(b, b, 1, n);
    lemma_pass(b, r1, 2, n, bound + 1);
    let r = nest_pass(b, r1, 2, n);
    lemma_pass(b, r, 2, n, bound + 2);
    let t2 = nest_pass(b, r, 2, n);
    assert forall|k: int| 0 <= k < n implies #[trigger] t2[k] == r[k] by {
        if level(b, k) == 2 {
            lemma_kid_levels(b, k, 2);
            assert(r[k] == grown(r1, k));
            assert forall|q: int| 0 <= q < r1[k].child_indices.len() && (#[trigger] r1[k].child_indices[q]) < r1.len()
                implies r[r1[k].child_indices[q] as int] == r1[r1[k].child_indices[q] as int] by {
                let c = r1[k].child_indices[q] as int;
                assert(r1[k].child_indices[q] == b[k].child_indices[q]);
                assert(level(b, c) != 2);
            }
            assert(r1[k] == b[k]);
            lemma_grown_fixed(r, r1, k, bound + 1);
        }
    }
    assert(t2 =~= r);
}

/// Nesting a second time changes nothing: every grown parent already holds
/// its children, which the second run leaves where the first put them.
pub proof fn law_nested_idempotent(inv: InventoryV)
    requires
        nested_ok(inv),
    ensures
        nested_spec(nested_spec(inv)) == nested_spec(inv),
{
    let b = inv.boxes;
    let n = b.len() as int;
    let bound = 8 * MAX_COORD as int;
    lemma_pass(b, b, 1, n, bound);
    let r1 = nest_pass(b, b, 1, n);
    lemma_pass(b, r1, 2, n, bound + 1);
    let r = nest_pass(b, r1, 2, n);
    lemma_levels_same(r, b);
    lemma_pass_levels(r, b, r, 1, n);
    lemma_rerun_first(b);
    lemma_pass_levels(r, b, r, 2, n);
    lemma_rerun_second(b);
    let once = nested_spec(inv);
    assert(nested_boxes(once.boxes) == r);
    assert(nested_spec(once) =~= once);
}

// ---------------------------------------------------------------------------
// Side-by-side groups
// ---------------------------------------------------------------------------

/// Box `b` is linked to box `a` of a group: their rows overlap and `b` lies
/// wholly left or right of `a` with a gap of at most one column.
pub open spec fn linked(a: BoxV, b: BoxV) -> bool {
    let rows_overlap = !(a.bottom_right.0 < b.top_left.0 || b.bottom_right.0 < a.top_left.0);
    rows_overlap && if a.bottom_right.1 < b.top_left.1 {
        b.top_left.1 - a.bottom_right.1 <= 1
    } else if b.bottom_right.1 < a.top_left.1 {
        a.top_left.1 - b.bottom_right.1 <= 1
    } else {
        false
    }
}

/// The boxes `v` one link on from the boxes of `prev`, outside `taken`.
pub open spec fn next_links(boxes: Seq<BoxV>, taken: Set<int>, prev: Set<int>) -> Set<int> {
    Set::new(
        |v: int|
            0 <= v < boxes.len() && !taken.contains(v) && exists|u: int|
                0 <= u < boxes.len() && #[trigger] prev.contains(u) && linked(boxes[u], boxes[v]),
    )
}

/// The boxes reached from seed `i` in at most `k` links, passing only
/// through boxes outside `taken`.
pub open spec fn reached(boxes: Seq<BoxV>, taken: Set<int>, i: int, k: nat) -> Set<int>
    decreases k,
{
    if k == 0 {
        set![i]
    } else {
        let prev = reached(boxes, taken, i, (k - 1) as nat);
        prev.union(next_links(boxes, taken, prev))
    }
}

/// Box `v` is reached from seed `i` in at most `k` links.
pub open spec fn within(boxes: Seq<BoxV>, taken: Set<int>, i: int, v: int, k: nat) -> bool {
    reached(boxes, taken, i, k).contains(v)
}

/// The numbers below `n` that satisfy `p`, ascending.
pub open spec fn select(n: nat, p: spec_fn(usize) -> bool) -> Seq<usize>
    decreases n,
{
    if n == 0 {
        Seq::empty()
    } else {
        let s = select((n - 1) as nat, p);
        if p((n - 1) as usize) {
            s.push((n - 1) as usize)
        } else {
            s
        }
    }
}

/// The boxes first reached in exactly `k` links, ascending.
pub open spec fn layer(boxes: Seq<BoxV>, taken: Set<int>, i: int, k: nat) -> Seq<usize> {
    if k == 0 {
        seq![i as usize]
    } else {
        select(boxes.len(), fresh_pred(boxes, taken, i, k))
    }
}

/// Box `v` is reached in `k` links and not in fewer.
pub open spec fn first_reached(boxes: Seq<BoxV>, taken: Set<int>, i: int, k: nat, v: usize) -> bool {
    within(boxes, taken, i, v as int, k) && !within(boxes, taken, i, v as int, (k - 1) as nat)
}

/// [`first_reached`] as a predicate on boxes.
pub open spec fn fresh_pred(boxes: Seq<BoxV>, taken: Set<int>, i: int, k: nat) -> spec_fn(usize) -> bool {
    |v: usize| first_reached(boxes, taken, i, k, v)
}

/// Layers `0..=m`, one after another.
pub open spec fn layers_upto(boxes: Seq<BoxV>, taken: Set<int>, i: int, m: nat) -> Seq<usize>
    decreases m,
{
    if m == 0 {
        layer(boxes, taken, i, 0)
    } else {
        layers_upto(boxes, taken, i, (m - 1) as nat) + layer(boxes, taken, i, m)
    }
}

/// The group seeded by box `i`: every box reachable from it through boxes
/// outside `taken`, nearest first, ties by index.
pub open spec fn seed_group(boxes: Seq<BoxV>, taken: Set<int>, i: int) -> Seq<usize> {
    layers_upto(boxes, taken, i, boxes.len())
}

/// `taken` together with the boxes of the group seeded by `i`.
pub open spec fn take_group(boxes: Seq<BoxV>, taken: Set<int>, i: int) -> Set<int> {
    taken.union(Set::new(|v: int| 0 <= v < boxes.len() && within(boxes, taken, i, v, boxes.len())))
}

/// Groups (of more than one box) seeded by the boxes `0..n` in turn, each
/// seed skipped when an earlier group already holds it; and the boxes taken.
pub open spec fn groups_upto(boxes: Seq<BoxV>, n: nat) -> (Seq<Seq<usize>>, Set<int>)
    decreases n,
{
    if n == 0 {
        (Seq::empty(), Set::empty())
    } else {
        let (gs, taken) = groups_upto(boxes, (n - 1) as nat);
        let i = n - 1;
        if taken.contains(i) {
            (gs, taken)
        } else {
            let g = seed_group(boxes, taken, i);
            (if g.len() > 1 {
                gs.push(g)
            } else {
                gs
            }, take_group(boxes, taken, i))
        }
    }
}

/// The groups of side-by-side boxes.
pub open spec fn overlap_groups(boxes: Seq<BoxV>) -> Seq<Seq<usize>> {
    groups_upto(boxes, boxes.len()).0
}

proof fn lemma_select(n: nat, p: spec_fn(usize) -> bool)
    requires
        n <= usize::MAX + 1,
    ensures
        forall|x: usize| #[trigger] select(n, p).contains(x) <==> x < n && p(x),
        forall|a: int, b: int| 0 <= a < b < select(n, p).len() ==> select(n, p)[a] < select(n, p)[b],
        forall|a: int| 0 <= a < select(n, p).len() ==> #[trigger] select(n, p)[a] < n,
        select(n, p).no_duplicates(),
    decreases n,
{
    if n > 0 {
        lemma_select((n - 1) as nat, p);
        let s = select((n - 1) as nat, p);
        let x = (n - 1) as usize;
        if p(x) {
            assert forall|y: usize| #[trigger] s.push(x).contains(y) <==> y < n && p(y) by {
                if y == x {
                    assert(s.push(x)[s.len() as int] == x);
                } else if s.push(x).contains(y) {
                    let k = choose|k: int| 0 <= k < s.push(x).len() && s.push(x)[k] == y;
                    assert(s[k] == y);
                    assert(s.contains(y));
                } else if y < n && p(y) {
                    assert(s.contains(y));
                    let k = choose|k: int| 0 <= k < s.len() && s[k] == y;
                    assert(s.push(x)[k] == y);
                }
            }
        }
    }
}

proof fn lemma_nodup_bound(s: Seq<usize>, n: nat)
    requires
        s.no_duplicates(),
        forall|a: int| 0 <= a < s.len() ==> #[trigger] s[a] < n,
    ensures
        s.len() <= n,
    decreases n,
{
    if n == 0 {
        if s.len() > 0 {
            assert(s[0] < 0);
        }
    } else if s.contains((n - 1) as usize) {
        let k = choose|k: int| 0 <= k < s.len() && s[k] == (n - 1) as usize;
        let t = s.remove(k);
        assert forall|a: int| 0 <= a < t.len() implies #[trigger] t[a] < n - 1 by {
            if a < k {
                assert(t[a] == s[a]);
            } else {
                assert(t[a] == s[a + 1]);
            }
        }
        assert(t.no_duplicates()) by {
            assert forall|a: int, b: int| 0 <= a < t.len() && 0 <= b < t.len() && a != b implies t[a]
                != t[b] by {
                let a2 = if a < k { a } else { a + 1 };
                let b2 = if b < k { b } else { b + 1 };
                assert(t[a] == s[a2] && t[b] == s[b2]);
            }
        }
        lemma_nodup_bound(t, (n - 1) as nat);
    } else {
        assert forall|a: int| 0 <= a < s.len() implies #[trigger] s[a] < n - 1 by {
            if s[a] == n - 1 {
                assert(s.contains(s[a]));
            }
        }
        lemma_nodup_bound(s, (n - 1) as nat);
    }
}

proof fn lemma_within_range(boxes: Seq<BoxV>, taken: Set<int>, i: int, v: int, k: nat)
    requires
        within(boxes, taken, i, v, k),
    ensures
        v == i || (0 <= v < boxes.len() && !taken.contains(v)),
    decreases k,
{
    if k > 0 && within(boxes, taken, i, v, (k - 1) as nat) {
        lemma_within_range(boxes, taken, i, v, (k - 1) as nat);
    }
}

proof fn lemma_within_mono(boxes: Seq<BoxV>, taken: Set<int>, i: int, v: int, k: nat, m: nat)
    requires
        within(boxes, taken, i, v, k),
        k <= m,
    ensures
        within(boxes, taken, i, v, m),
    decreases m - k,
{
    if k < m {
        lemma_within_mono(boxes, taken, i, v, k, (m - 1) as nat);
    }
}

/// Once a round reaches nothing new, no later round does.
proof fn lemma_within_stable(boxes: Seq<BoxV>, taken: Set<int>, i: int, r: nat, m: nat)
    requires
        forall|v: int| #[trigger] within(boxes, taken, i, v, r + 1) ==> within(boxes, taken, i, v, r),
        r <= m,
    ensures
        forall|v: int| #[trigger] within(boxes, taken, i, v, m) <==> within(boxes, taken, i, v, r),
    decreases m - r,
{
    if r < m {
        lemma_within_stable(boxes, taken, i, r, (m - 1) as nat);
        assert forall|v: int| #[trigger] within(boxes, taken, i, v, m) <==> within(boxes, taken, i, v, r) by {
            if within(boxes, taken, i, v, m) && !within(boxes, taken, i, v, (m - 1) as nat) {
                let prev = reached(boxes, taken, i, (m - 1) as nat);
                assert(next_links(boxes, taken, prev).contains(v));
                let u = choose|u: int|
                    0 <= u < boxes.len() && #[trigger] prev.contains(u) && linked(boxes[u], boxes[v]);
                assert(within(boxes, taken, i, u, (m - 1) as nat));
                assert(within(boxes, taken, i, u, r));
                assert(next_links(boxes, taken, reached(boxes, taken, i, r)).contains(v));
                assert(within(boxes, taken, i, v, r + 1));
            }
            if within(boxes, taken, i, v, r) {
                lemma_within_mono(boxes, taken, i, v, r, m);
            }
        }
    }
}

proof fn lemma_layers_flat(boxes: Seq<BoxV>, taken: Set<int>, i: int, r: nat, m: nat)
    requires
        forall|v: int| #[trigger] within(boxes, taken, i, v, r + 1) ==> within(boxes, taken, i, v, r),
        r <= m,
        boxes.len() <= usize::MAX,
    ensures
        layers_upto(boxes, taken, i, m) == layers_upto(boxes, taken, i, r),
    decreases m - r,
{
    if r < m {
        lemma_layers_flat(boxes, taken, i, r, (m - 1) as nat);
        lemma_within_stable(boxes, taken, i, r, m);
        lemma_within_stable(boxes, taken, i, r, (m - 1) as nat);
        let p = fresh_pred(boxes, taken, i, m);
        lemma_select(boxes.len(), p);
        let l = layer(boxes, taken, i, m);
        if l.len() > 0 {
            assert(l.contains(l[0]));
        }
        assert(l =~= Seq::<usize>::empty());
        assert(layers_upto(boxes, taken, i, m) =~= layers_upto(boxes, taken, i, (m - 1) as nat));
    }
}

/// Is box `j` linked to some box of the group?
fn linked_to_group(boxes: &Vec<DiagramBox>, group: &Vec<usize>, j: usize) -> (b: bool)
    requires
        j < boxes.len(),
        forall|p: int| 0 <= p < group@.len() ==> #[trigger] group@[p] < boxes.len(),
    ensures
        b == exists|p: int|
            0 <= p < group@.len() && linked(
                boxes@[#[trigger] group@[p] as int]@,
                boxes@[j as int]@,
            ),
{
    let box_j = &boxes[j];
    let mut k: usize = 0;
    while k < group.len()
        invariant
            k <= group@.len(),
            j < boxes.len(),
            box_j@ == boxes@[j as int]@,
            forall|p: int| 0 <= p < group@.len() ==> #[trigger] group@[p] < boxes.len(),
            forall|p: int| 0 <= p < k ==> !linked(boxes@[#[trigger] group@[p] as int]@, boxes@[j as int]@),
        decreases group@.len() - k,
    {
        let g = &boxes[group[k]];
        let rows_overlap = !(g.bottom_right.0 < box_j.top_left.0 || box_j.bottom_right.0 < g.top_left.0);
        let adjacent = if g.bottom_right.1 < box_j.top_left.1 {
            box_j.top_left.1 - g.bottom_right.1 <= 1
        } else if box_j.bottom_right.1 < g.top_left.1 {
            g.top_left.1 - box_j.bottom_right.1 <= 1
        } else {
            false
        };
        if rows_overlap && adjacent {
            assert(linked(boxes@[group@[k as int] as int]@, boxes@[j as int]@));
            return true;
        }
        k += 1;
    }
    false
}

/// Grow the group seeded by box `i` round by round, marking its boxes.
fn grow_group(
    boxes: &Vec<DiagramBox>,
    assigned: &mut Vec<bool>,
    i: usize,
    Ghost(taken): Ghost<Set<int>>,
) -> (group: Vec<usize>)
    requires
        old(assigned)@.len() == boxes@.len(),
        i < boxes@.len(),
        !taken.contains(i as int),
        forall|v: int| 0 <= v < boxes@.len() ==> (old(assigned)@[v] <==> taken.contains(v)),
    ensures
        final(assigned)@.len() == boxes@.len(),
        group@ == seed_group(boxes@.map_values(|b: DiagramBox| b@), taken, i as int),
        forall|v: int|
            0 <= v < boxes@.len() ==> (final(assigned)@[v] <==> take_group(
                boxes@.map_values(|b: DiagramBox| b@),
                taken,
                i as int,
            ).contains(v)),
{
    let ghost bv = boxes@.map_values(|b: DiagramBox| b@);
    let n = boxes.len();
    let mut group: Vec<usize> = Vec::new();
    group.push(i);
    assigned.set(i, true);
    let ghost mut r: nat = 0;
    proof {
        assert(group@ =~= layers_upto(bv, taken, i as int, 0));
        assert forall|v: int| 0 <= v < n implies (group@.contains(v as usize) <==> within(
            bv,
            taken,
            i as int,
            v,
            0,
        )) by {
            if v == i {
                assert(group@[0] == i);
            }
        }
    }
    let mut changed = true;
    while changed
        invariant
            n == boxes@.len() == assigned@.len(),
            bv == boxes@.map_values(|b: DiagramBox| b@),
            i < n,
            !taken.contains(i as int),
            group@ == layers_upto(bv, taken, i as int, r),
            group@.no_duplicates(),
            forall|p: int| 0 <= p < group@.len() ==> #[trigger] group@[p] < n,
            forall|v: int|
                #![trigger group@.contains(v as usize)]
                #![trigger within(bv, taken, i as int, v, r)]
                0 <= v < n ==> (group@.contains(v as usize) <==> within(bv, taken, i as int, v, r)),
            forall|v: int|
                #![trigger assigned@[v]]
                #![trigger within(bv, taken, i as int, v, r)]
                0 <= v < n ==> (assigned@[v] <==> taken.contains(v) || within(bv, taken, i as int, v, r)),
            group@.len() >= r + 1,
            !changed ==> forall|v: int| #[trigger] within(bv, taken, i as int, v, r + 1) ==> within(bv, taken, i as int, v, r),
        decreases n - group@.len() + (if changed { 1int } else { 0int }),
    {
        proof {
            lemma_nodup_bound(group@, n as nat);
        }
        let ghost fresh = fresh_pred(bv, taken, i as int, r + 1);
        let mut to_add: Vec<usize> = Vec::new();
        let mut j: usize = 0;
        while j < n
            invariant
                j <= n,
                n == boxes@.len() == assigned@.len(),
                bv == boxes@.map_values(|b: DiagramBox| b@),
                i < n,
                forall|p: int| 0 <= p < group@.len() ==> #[trigger] group@[p] < n,
                forall|v: int|
                    #![trigger group@.contains(v as usize)]
                    #![trigger within(bv, taken, i as int, v, r)]
                    0 <= v < n ==> (group@.contains(v as usize) <==> within(bv, taken, i as int, v, r)),
                forall|v: int|
                    #![trigger assigned@[v]]
                    #![trigger within(bv, taken, i as int, v, r)]
                    0 <= v < n ==> (assigned@[v] <==> taken.contains(v) || within(bv, taken, i as int, v, r)),
                to_add@ == select(j as nat, fresh),
                fresh == fresh_pred(bv, taken, i as int, r + 1),
                !taken.contains(i as int),
            decreases n - j,
        {
            let ghost prev = reached(bv, taken, i as int, r);
            let mut take = false;
            if !assigned[j] {
                if linked_to_group(boxes, &group, j) {
                    take = true;
                }
            }
            proof {
                assert(bv[j as int] == boxes@[j as int]@);
                assert(fresh(j) == first_reached(bv, taken, i as int, r + 1, j));
                if take {
                    let p = choose|p: int|
                        0 <= p < group@.len() && linked(boxes@[#[trigger] group@[p] as int]@, boxes@[j as int]@);
                    let u = group@[p] as int;
                    assert(group@.contains(u as usize));
                    assert(prev.contains(u));
                    assert(bv[u] == boxes@[u]@);
                    assert(next_links(bv, taken, prev).contains(j as int));
                    assert(reached(bv, taken, i as int, r + 1).contains(j as int));
                    assert(first_reached(bv, taken, i as int, r + 1, j));
                } else if first_reached(bv, taken, i as int, r + 1, j) {
                    assert(next_links(bv, taken, prev).contains(j as int));
                    let u = choose|u: int| 0 <= u < bv.len() && #[trigger] prev.contains(u) && linked(bv[u], bv[j as int]);
                    assert(group@.contains(u as usize));
                    let p = choose|p: int| 0 <= p < group@.len() && group@[p] == u as usize;
                    assert(bv[u] == boxes@[u]@);
                    assert(linked(boxes@[group@[p] as int]@, boxes@[j as int]@));
                    assert(false);
                }
            }
            if take {
                to_add.push(j);
            }
            j += 1;
        }
        proof {
            lemma_select(n as nat, fresh);
            assert(layer(bv, taken, i as int, r + 1) == select(n as nat, fresh));
        }
        if to_add.len() == 0 {
            changed = false;
            proof {
                assert forall|v: int| #[trigger] within(bv, taken, i as int, v, r + 1) implies within(bv, taken, i as int, v, r) by {
                    lemma_within_range(bv, taken, i as int, v, r + 1);
                    if v != i && !within(bv, taken, i as int, v, r) {
                        assert(fresh(v as usize));
                        assert(select(n as nat, fresh).contains(v as usize));
                    }
                    if v == i {
                        assert(within(bv, taken, i as int, v, 0));
                        lemma_within_mono(bv, taken, i as int, v, 0, r);
                    }
                }
            }
        } else {
            let ghost old_group = group@;
            let ghost old_assigned = assigned@;
            let mut q: usize = 0;
            while q < to_add.len()
                invariant
                    q <= to_add@.len(),
                    n == boxes@.len() == assigned@.len(),
                    to_add@ == select(n as nat, fresh),
                    forall|a: int| 0 <= a < to_add@.len() ==> #[trigger] to_add@[a] < n,
                    group@ == old_group + to_add@.take(q as int),
                    assigned@.len() == old_assigned.len(),
                    forall|v: int| 0 <= v < n ==> (#[trigger] assigned@[v] <==> old_assigned[v] || to_add@.take(q as int).contains(v as usize)),
                decreases to_add@.len() - q,
            {
                let x = to_add[q];
                group.push(x);
                assigned.set(x, true);
                proof {
                    assert(to_add@.take(q + 1) =~= to_add@.take(q as int).push(x));
                    assert(group@ =~= old_group + to_add@.take(q + 1));
                    assert forall|v: int| 0 <= v < n implies (#[trigger] assigned@[v] <==> old_assigned[v] || to_add@.take(q + 1).contains(v as usize)) by {
                        lemma_push_contains(to_add@.take(q as int), x, v as usize);
                    }
                }
                q += 1;
            }
            proof {
                assert(to_add@.take(q as int) =~= to_add@);
                let nr = r + 1;
                assert(group@ == layers_upto(bv, taken, i as int, nr));
                assert forall|a: int, b: int| 0 <= a < old_group.len() && 0 <= b < to_add@.len() implies old_group[a] != to_add@[b] by {
                    let x = to_add@[b];
                    assert(to_add@.contains(x));
                    assert(old_group.contains(old_group[a]));
                }
                vstd::seq_lib::lemma_no_dup_in_concat(old_group, to_add@);
                assert forall|v: int| 0 <= v < n implies (group@.contains(v as usize) <==> within(bv, taken, i as int, v, nr)) by {
                    if group@.contains(v as usize) {
                        let a = choose|a: int| 0 <= a < group@.len() && group@[a] == v as usize;
                        if a < old_group.len() {
                            assert(old_group.contains(v as usize));
                            lemma_within_mono(bv, taken, i as int, v, r, nr);
                        } else {
                            assert(to_add@[a - old_group.len()] == v as usize);
                            assert(to_add@.contains(v as usize));
                        }
                    }
                    if within(bv, taken, i as int, v, nr) {
                        if within(bv, taken, i as int, v, r) {
                            assert(old_group.contains(v as usize));
                            let a = choose|a: int| 0 <= a < old_group.len() && old_group[a] == v as usize;
                            assert(group@[a] == v as usize);
                        } else {
                            assert(fresh(v as usize));
                            assert(to_add@.contains(v as usize));
                            let b = choose|b: int| 0 <= b < to_add@.len() && to_add@[b] == v as usize;
                            assert(group@[old_group.len() + b] == v as usize);
                        }
                    }
                }
                assert forall|v: int| 0 <= v < n implies (assigned@[v] <==> taken.contains(v) || within(bv, taken, i as int, v, nr)) by {
                    if within(bv, taken, i as int, v, r) {
                        lemma_within_mono(bv, taken, i as int, v, r, nr);
                    }
                    if within(bv, taken, i as int, v, nr) && !within(bv, taken, i as int, v, r) {
                        assert(fresh(v as usize));
                        assert(to_add@.contains(v as usize));
                    }
                    if to_add@.contains(v as usize) {
                        assert(fresh(v as usize));
                    }
                }
                assert(to_add@.len() > 0);
                assert forall|p: int| 0 <= p < group@.len() implies #[trigger] group@[p] < n by {
                    if p >= old_group.len() {
                        assert(group@[p] == to_add@[p - old_group.len()]);
                    }
                }
                lemma_nodup_bound(group@, n as nat);
                r = nr;
            }
        }
    }
    proof {
        lemma_nodup_bound(group@, n as nat);
        lemma_layers_flat(bv, taken, i as int, r, n as nat);
        lemma_within_stable(bv, taken, i as int, r, n as nat);
    }
    group
}

/// Find groups of boxes that have vertical row overlap and are horizontally
/// adjacent.
///
/// Boxes are taken in index order; a box that no earlier group holds seeds
/// a group of every box reachable from it through links (rows overlap, at
/// most one column apart, no shared column) among boxes not yet grouped,
/// listed nearest first with ties by index. Only groups of two or more
/// boxes are returned.
pub fn find_vertical_overlap_groups(inventory: &PrimitiveInventory) -> (groups: Vec<Vec<usize>>)
    ensures
        groups@.map_values(|g: Vec<usize>| g@) == overlap_groups(inventory@.boxes),
{
    let ghost bv = inventory@.boxes;
    let boxes = &inventory.boxes;
    let n = boxes.len();
    let mut groups: Vec<Vec<usize>> = Vec::new();
    let mut assigned: Vec<bool> = Vec::new();
    let mut k: usize = 0;
    while k < n
        invariant
            k <= n == boxes@.len(),
            assigned@.len() == k,
            forall|v: int| 0 <= v < k ==> !(#[trigger] assigned@[v]),
        decreases n - k,
    {
        assigned.push(false);
        k += 1;
    }
    let mut i: usize = 0;
    while i < n
        invariant
            i <= n == boxes@.len() == assigned@.len(),
            bv == boxes@.map_values(|b: DiagramBox| b@),
            groups@.map_values(|g: Vec<usize>| g@) == groups_upto(bv, i as nat).0,
            forall|v: int| 0 <= v < n ==> (assigned@[v] <==> groups_upto(bv, i as nat).1.contains(v)),
        decreases n - i,
    {
        let ghost taken = groups_upto(bv, i as nat).1;
        if !assigned[i] {
            let group = grow_group(boxes, &mut assigned, i, Ghost(taken));
            if group.len() > 1 {
                groups.push(group);
                proof {
                    assert(groups@.map_values(|g: Vec<usize>| g@) =~= groups_upto(bv, i as nat).0.push(
                        seed_group(bv, taken, i as int),
                    ));
                }
            }
        }
        i += 1;
    }
    groups
}

proof fn lemma_push_contains(s: Seq<usize>, x: usize, y: usize)
    ensures
        s.push(x).contains(y) <==> s.contains(y) || y == x,
{
    if s.push(x).contains(y) && y != x {
        let k = choose|k: int| 0 <= k < s.push(x).len() && s.push(x)[k] == y;
        assert(s[k] == y);
    }
    if s.contains(y) {
        let k = choose|k: int| 0 <= k < s.len() && s[k] == y;
        assert(s.push(x)[k] == y);
    }
    if y == x {
        assert(s.push(x)[s.len() as int] == y);
    }
}

proof fn lemma_layers_members(boxes: Seq<BoxV>, taken: Set<int>, i: int, m: nat)
    requires
        boxes.len() <= usize::MAX,
        0 <= i < boxes.len(),
    ensures
        forall|a: int|
            0 <= a < layers_upto(boxes, taken, i, m).len() ==> within(
                boxes,
                taken,
                i,
                (#[trigger] layers_upto(boxes, taken, i, m)[a]) as int,
                m,
            ),
    decreases m,
{
    let l = layers_upto(boxes, taken, i, m);
    if m == 0 {
        assert(l[0] as int == i);
    } else {
        lemma_layers_members(boxes, taken, i, (m - 1) as nat);
        let prev = layers_upto(boxes, taken, i, (m - 1) as nat);
        let cur = layer(boxes, taken, i, m);
        lemma_select(boxes.len(), fresh_pred(boxes, taken, i, m));
        assert forall|a: int| 0 <= a < l.len() implies within(boxes, taken, i, (#[trigger] l[a]) as int, m) by {
            if a < prev.len() {
                assert(l[a] == prev[a]);
                lemma_within_mono(boxes, taken, i, prev[a] as int, (m - 1) as nat, m);
            } else {
                assert(l[a] == cur[a - prev.len()]);
                assert(cur.contains(cur[a - prev.len()]));
                assert(fresh_pred(boxes, taken, i, m)(cur[a - prev.len()]));
            }
        }
    }
}

/// Every box of a group is in range and taken; no box is in two groups.
proof fn lemma_groups_disjoint(boxes: Seq<BoxV>, n: nat)
    requires
        n <= boxes.len() <= usize::MAX,
    ensures
        forall|q: int, a: int|
            0 <= q < groups_upto(boxes, n).0.len() && 0 <= a < groups_upto(boxes, n).0[q].len() ==> (
            #[trigger] groups_upto(boxes, n).0[q][a]) < boxes.len() && groups_upto(boxes, n).1.contains(
                groups_upto(boxes, n).0[q][a] as int,
            ),
        forall|q1: int, q2: int, a: int, b: int|
            0 <= q1 < groups_upto(boxes, n).0.len() && 0 <= q2 < groups_upto(boxes, n).0.len() && q1
                != q2 && 0 <= a < groups_upto(boxes, n).0[q1].len() && 0 <= b < groups_upto(boxes, n).0[q2].len()
                ==> #[trigger] groups_upto(boxes, n).0[q1][a] != #[trigger] groups_upto(boxes, n).0[q2][b],
    decreases n,
{
    if n > 0 {
        lemma_groups_disjoint(boxes, (n - 1) as nat);
        let (gs, taken) = groups_upto(boxes, (n - 1) as nat);
        let i = n - 1;
        if !taken.contains(i) {
            let g = seed_group(boxes, taken, i);
            lemma_layers_members(boxes, taken, i, boxes.len());
            let t2 = take_group(boxes, taken, i);
            assert forall|a: int| 0 <= a < g.len() implies (#[trigger] g[a]) < boxes.len() && t2.contains(
                g[a] as int,
            ) && !taken.contains(g[a] as int) by {
                lemma_within_range(boxes, taken, i, g[a] as int, boxes.len());
            }
            let (gs2, tk2) = groups_upto(boxes, n);
            assert forall|q: int, a: int| 0 <= q < gs2.len() && 0 <= a < gs2[q].len() implies (
            #[trigger] gs2[q][a]) < boxes.len() && tk2.contains(gs2[q][a] as int) by {
                if q < gs.len() {
                    assert(gs2[q] == gs[q]);
                } else {
                    assert(gs2[q] == g);
                }
            }
            assert forall|q1: int, q2: int, a: int, b: int|
                0 <= q1 < gs2.len() && 0 <= q2 < gs2.len() && q1 != q2 && 0 <= a < gs2[q1].len() && 0
                    <= b < gs2[q2].len() implies #[trigger] gs2[q1][a] != #[trigger] gs2[q2][b] by {
                if q1 < gs.len() && q2 < gs.len() {
                    assert(gs2[q1] == gs[q1] && gs2[q2] == gs[q2]);
                } else if q1 < gs.len() {
                    assert(gs2[q1] == gs[q1] && gs2[q2] == g);
                    assert(taken.contains(gs[q1][a] as int));
                } else {
                    assert(gs2[q2] == gs[q2] && gs2[q1] == g);
                    assert(taken.contains(gs[q2][b] as int));
                }
            }
        }
    }
}

// ---------------------------------------------------------------------------
// Balancing side-by-side boxes
// ---------------------------------------------------------------------------

/// The widest box of a group (0 for an empty group).
pub open spec fn group_max_width(boxes: Seq<BoxV>, g: Seq<usize>) -> int
    decreases g.len(),
{
    if g.len() == 0 {
        0
    } else {
        max_i(group_max_width(boxes, g.drop_last()), boxes[g.last() as int].width())
    }
}

/// The box widened to the right to width `w`, if narrower.
pub open spec fn widen_to(b: BoxV, w: int) -> BoxV {
    if b.width() < w {
        BoxV {
            top_left: b.top_left,
            bottom_right: (b.bottom_right.0, (b.bottom_right.1 + (w - b.width())) as usize),
            style: b.style,
            parent_idx: b.parent_idx,
            child_indices: b.child_indices,
        }
    } else {
        b
    }
}

/// Box `k` widened to the widest of the first of the groups `gs[..q]` that
/// holds it, if any.
pub open spec fn balanced_upto(boxes: Seq<BoxV>, gs: Seq<Seq<usize>>, q: int, k: int) -> BoxV {
    match first_where(gs.take(q), |g: Seq<usize>| g.contains(k as usize)) {
        Some(p) => widen_to(boxes[k], group_max_width(boxes, gs[p])),
        None => boxes[k],
    }
}

/// The inventory that `balance_horizontal_boxes` produces: each box of a
/// side-by-side group widened to the widest box of its group.
pub open spec fn balance_spec(inv: InventoryV) -> InventoryV {
    let gs = overlap_groups(inv.boxes);
    InventoryV {
        boxes: Seq::new(inv.boxes.len(), |k: int| balanced_upto(inv.boxes, gs, gs.len() as int, k)),
        horizontal_arrows: inv.horizontal_arrows,
        vertical_arrows: inv.vertical_arrows,
        text_rows: inv.text_rows,
        connection_lines: inv.connection_lines,
        labels: inv.labels,
    }
}

/// Inputs on which `balance_horizontal_boxes` computes without overflow:
/// small columns, and corners in order for every box of a group.
pub open spec fn balance_ok(inv: InventoryV) -> bool {
    let gs = overlap_groups(inv.boxes);
    &&& forall|k: int| 0 <= k < inv.boxes.len() ==> (#[trigger] inv.boxes[k]).bottom_right.1 <= 8 * MAX_COORD
        && inv.boxes[k].top_left.1 <= 8 * MAX_COORD
    &&& forall|q: int, a: int|
        0 <= q < gs.len() && 0 <= a < gs[q].len() ==> inv.boxes[(#[trigger] gs[q][a]) as int].top_left.1
            <= inv.boxes[gs[q][a] as int].bottom_right.1
}

pub proof fn lemma_group_max_width(boxes: Seq<BoxV>, g: Seq<usize>)
    requires
        forall|a: int| 0 <= a < g.len() ==> (#[trigger] g[a]) < boxes.len() && boxes[g[a] as int].top_left.1
            <= boxes[g[a] as int].bottom_right.1 <= 8 * MAX_COORD,
    ensures
        0 <= group_max_width(boxes, g) <= 8 * MAX_COORD + 1,
        forall|a: int| 0 <= a < g.len() ==> boxes[(#[trigger] g[a]) as int].width() <= group_max_width(boxes, g),
    decreases g.len(),
{
    if g.len() > 0 {
        assert forall|a: int| 0 <= a < g.drop_last().len() implies (#[trigger] g.drop_last()[a]) < boxes.len()
            && boxes[g.drop_last()[a] as int].top_left.1 <= boxes[g.drop_last()[a] as int].bottom_right.1
            <= 8 * MAX_COORD by {
            assert(g.drop_last()[a] == g[a]);
        }
        lemma_group_max_width(boxes, g.drop_last());
        assert(g.last() == g[g.len() - 1]);
        assert forall|a: int| 0 <= a < g.len() implies boxes[(#[trigger] g[a]) as int].width() <= group_max_width(boxes, g) by {
            if a < g.len() - 1 {
                assert(g.drop_last()[a] == g[a]);
            }
        }
    }
}

/// Balance widths of side-by-side boxes in the same group.
///
/// For each group of [`find_vertical_overlap_groups`], every narrower box
/// is widened to the right to the width of the group's widest box. Only
/// expands, never shrinks.
pub fn balance_horizontal_boxes(inventory: &PrimitiveInventory) -> (r: PrimitiveInventory)
    requires
        balance_ok(inventory@),
    ensures
        r@ == balance_spec(inventory@),
{
    let ghost bv = inventory@.boxes;
    let groups = find_vertical_overlap_groups(inventory);
    let ghost gs = overlap_groups(bv);
    let _count = inventory.boxes.len();
    proof {
        lemma_groups_disjoint(bv, bv.len());
    }
    let mut boxes = copy_boxes(&inventory.boxes);
    let n = boxes.len();
    let mut q: usize = 0;
    while q < groups.len()
        invariant
            q <= groups@.len() == gs.len(),
            n == bv.len() == boxes@.len(),
            bv == inventory@.boxes,
            gs == overlap_groups(bv),
            groups@.map_values(|g: Vec<usize>| g@) == gs,
            balance_ok(inventory@),
            forall|qq: int, a: int|
                0 <= qq < gs.len() && 0 <= a < gs[qq].len() ==> (#[trigger] gs[qq][a]) < bv.len(),
            forall|q1: int, q2: int, a: int, b: int|
                0 <= q1 < gs.len() && 0 <= q2 < gs.len() && q1 != q2 && 0 <= a < gs[q1].len() && 0
                    <= b < gs[q2].len() ==> #[trigger] gs[q1][a] != #[trigger] gs[q2][b],
            forall|k: int| 0 <= k < n ==> (#[trigger] boxes@[k])@ == balanced_upto(bv, gs, q as int, k),
        decreases gs.len() - q,
    {
        let g = &groups[q];
        let ghost gq = gs[q as int];
        proof {
            assert(g@ == gq);
            assert forall|a: int| 0 <= a < gq.len() implies (#[trigger] gq[a]) < bv.len() && bv[gq[a] as int].top_left.1
                <= bv[gq[a] as int].bottom_right.1 <= 8 * MAX_COORD by {
                assert(gs[q as int][a] == gq[a]);
            }
            lemma_group_max_width(bv, gq);
            // boxes of this group are still as given
            assert forall|a: int| 0 <= a < gq.len() implies (#[trigger] boxes@[gq[a] as int])@ == bv[gq[a] as int] by {
                let k = gq[a] as int;
                let pr = |g2: Seq<usize>| g2.contains(k as usize);
                lemma_first_where(gs.take(q as int), pr);
                match first_where(gs.take(q as int), pr) {
                    Some(p) => {
                        assert(gs.take(q as int)[p] == gs[p]);
                        let b = choose|b: int| 0 <= b < gs[p].len() && gs[p][b] == k as usize;
                        assert(gs[p][b] != gs[q as int][a]);
                    },
                    None => {},
                }
            }
        }
        let mut maxw: usize = 0;
        let mut a: usize = 0;
        while a < g.len()
            invariant
                a <= g@.len(),
                g@ == gq,
                n == boxes@.len() == bv.len(),
                forall|x: int| 0 <= x < gq.len() ==> (#[trigger] gq[x]) < bv.len() && bv[gq[x] as int].top_left.1
                    <= bv[gq[x] as int].bottom_right.1 <= 8 * MAX_COORD,
                forall|x: int| 0 <= x < gq.len() ==> (#[trigger] boxes@[gq[x] as int])@ == bv[gq[x] as int],
                maxw == group_max_width(bv, gq.take(a as int)),
                maxw <= 8 * MAX_COORD + 1,
            decreases g@.len() - a,
        {
            let idx = g[a];
            proof {
                assert(boxes@[gq[a as int] as int]@ == bv[gq[a as int] as int]);
                assert(gq.take(a + 1).drop_last() =~= gq.take(a as int));
                assert(gq.take(a + 1).last() == gq[a as int]);
            }
            let w = boxes[idx].width();
            if w > maxw {
                maxw = w;
            }
            a += 1;
        }
        proof {
            assert(gq.take(a as int) =~= gq);
        }
        let ghost before = boxes@.map_values(|b: DiagramBox| b@);
        let mut a: usize = 0;
        while a < g.len()
            invariant
                a <= g@.len(),
                g@ == gq,
                n == boxes@.len() == bv.len(),
                before.len() == n,
                forall|x: int| 0 <= x < gq.len() ==> (#[trigger] gq[x]) < bv.len() && bv[gq[x] as int].top_left.1
                    <= bv[gq[x] as int].bottom_right.1 <= 8 * MAX_COORD,
                forall|x: int| 0 <= x < gq.len() ==> before[(#[trigger] gq[x]) as int] == bv[gq[x] as int],
                maxw == group_max_width(bv, gq),
                maxw <= 8 * MAX_COORD + 1,
                forall|k: int| 0 <= k < n ==> (#[trigger] boxes@[k])@ == if gq.take(a as int).contains(k as usize) {
                    widen_to(bv[k], maxw as int)
                } else {
                    before[k]
                },
            decreases g@.len() - a,
        {
            let idx = g[a];
            proof {
                lemma_push_contains(gq.take(a as int), idx, idx);
                assert(gq.take(a + 1) =~= gq.take(a as int).push(idx));
                assert(before[gq[a as int] as int] == bv[idx as int]);
            }
            let cur = &boxes[idx];
            let current_width = cur.width();
            if current_width < maxw {
                let mut nb = cur.copy();
                nb.bottom_right = (cur.bottom_right.0, cur.bottom_right.1 + (maxw - current_width));
                boxes.set(idx, nb);
            }
            proof {
                assert forall|k: int| 0 <= k < n implies (#[trigger] boxes@[k])@ == if gq.take(a + 1).contains(k as usize) {
                    widen_to(bv[k], maxw as int)
                } else {
                    before[k]
                } by {
                    lemma_push_contains(gq.take(a as int), idx, k as usize);
                }
            }
            a += 1;
        }
        proof {
            assert(gq.take(a as int) =~= gq);
            assert(gs.take(q + 1).drop_last() =~= gs.take(q as int));
            assert forall|k: int| 0 <= k < n implies (#[trigger] boxes@[k])@ == balanced_upto(bv, gs, q + 1, k) by {
                let pr = |g2: Seq<usize>| g2.contains(k as usize);
                lemma_first_where(gs.take(q as int), pr);
                assert(gs.take(q + 1).last() == gq);
                if gq.contains(k as usize) {
                    let x = choose|x: int| 0 <= x < gq.len() && gq[x] == k as usize;
                    match first_where(gs.take(q as int), pr) {
                        Some(p) => {
                            assert(gs.take(q as int)[p] == gs[p]);
                            let b = choose|b: int| 0 <= b < gs[p].len() && gs[p][b] == k as usize;
                            assert(gs[p][b] != gs[q as int][x]);
                        },
                        None => {},
                    }
                }
            }
        }
        q += 1;
    }
    proof {
        assert(gs.take(q as int) =~= gs);
        assert(boxes@.map_values(|b: DiagramBox| b@) =~= Seq::new(bv.len(), |k: int| balanced_upto(bv, gs, gs.len() as int, k)));
    }
    PrimitiveInventory {
        boxes: boxes,
        horizontal_arrows: copy_vec(&inventory.horizontal_arrows),
        vertical_arrows: copy_vec(&inventory.vertical_arrows),
        text_rows: copy_text_rows(&inventory.text_rows),
        connection_lines: copy_connection_lines(&inventory.connection_lines),
        labels: copy_labels(&inventory.labels),
    }
}

// ---------------------------------------------------------------------------
// Boxes only grow
// ---------------------------------------------------------------------------

/// Widening boxes to their content never narrows a box: its corners stay
/// where they were, except that the right border may move right.
pub proof fn law_box_widths_never_shrink(inv: InventoryV)
    requires
        box_widths_ok(inv),
    ensures
        box_widths_spec(inv).boxes.len() == inv.boxes.len(),
        forall|k: int| 0 <= k < inv.boxes.len() ==> {
            let b = #[trigger] box_widths_spec(inv).boxes[k];
            &&& b.top_left == inv.boxes[k].top_left
            &&& b.bottom_right.0 == inv.boxes[k].bottom_right.0
            &&& b.bottom_right.1 >= inv.boxes[k].bottom_right.1
        },
{
    assert forall|k: int| 0 <= k < inv.boxes.len() implies {
        let b = #[trigger] box_widths_spec(inv).boxes[k];
        &&& b.top_left == inv.boxes[k].top_left
        &&& b.bottom_right.0 == inv.boxes[k].bottom_right.0
        &&& b.bottom_right.1 >= inv.boxes[k].bottom_right.1
    } by {
        lemma_max_content_bound(inv.text_rows, inv.boxes[k]);
    }
}

/// Balancing side-by-side boxes only widens them: corners stay, except
/// that the right border may move right.
pub proof fn law_balance_never_shrinks(inv: InventoryV)
    requires
        balance_ok(inv),
        inv.boxes.len() <= usize::MAX,
    ensures
        balance_spec(inv).boxes.len() == inv.boxes.len(),
        forall|k: int| 0 <= k < inv.boxes.len() ==> {
            let b = #[trigger] balance_spec(inv).boxes[k];
            &&& b.top_left == inv.boxes[k].top_left
            &&& b.bottom_right.0 == inv.boxes[k].bottom_right.0
            &&& b.bottom_right.1 >= inv.boxes[k].bottom_right.1
        },
{
    let bv = inv.boxes;
    let gs = overlap_groups(bv);
    lemma_groups_disjoint(bv, bv.len());
    assert forall|k: int| 0 <= k < inv.boxes.len() implies {
        let b = #[trigger] balance_spec(inv).boxes[k];
        &&& b.top_left == inv.boxes[k].top_left
        &&& b.bottom_right.0 == inv.boxes[k].bottom_right.0
        &&& b.bottom_right.1 >= inv.boxes[k].bottom_right.1
    } by {
        let pr = |g2: Seq<usize>| g2.contains(k as usize);
        lemma_first_where(gs.take(gs.len() as int), pr);
        match first_where(gs.take(gs.len() as int), pr) {
            Some(p) => {
                let g = gs[p];
                assert(gs.take(gs.len() as int)[p] == g);
                assert forall|a: int| 0 <= a < g.len() implies (#[trigger] g[a]) < bv.len() && bv[g[a] as int].top_left.1
                    <= bv[g[a] as int].bottom_right.1 <= 8 * MAX_COORD by {
                    assert(gs[p][a] == g[a]);
                }
                lemma_group_max_width(bv, g);
            },
            None => {},
        }
    }
}

proof fn lemma_child_bounds_grow(boxes: Seq<BoxV>, kids: Seq<usize>, init: (int, int, int, int))
    ensures
        child_bounds(boxes, kids, init).0 <= init.0,
        child_bounds(boxes, kids, init).1 <= init.1,
        child_bounds(boxes, kids, init).2 >= init.2,
        child_bounds(boxes, kids, init).3 >= init.3,
    decreases kids.len(),
{
    if kids.len() > 0 {
        lemma_child_bounds_grow(boxes, kids.drop_last(), init);
    }
}

/// A pass moves no corner inwards.
proof fn lemma_pass_grows(orig: Seq<BoxV>, acc: Seq<BoxV>, l: int, bound: int)
    requires
        acc.len() == orig.len(),
        l == 1 || l == 2,
        forall|k: int| 0 <= k < orig.len() ==> (#[trigger] acc[k]).child_indices == orig[k].child_indices,
        corners_within(acc, bound),
        0 <= bound < usize::MAX - 1,
    ensures
        forall|k: int| 0 <= k < orig.len() ==> {
            let b = #[trigger] nest_pass(orig, acc, l, orig.len() as int)[k];
            &&& b.top_left.0 <= acc[k].top_left.0
            &&& b.top_left.1 <= acc[k].top_left.1
            &&& b.bottom_right.0 >= acc[k].bottom_right.0
            &&& b.bottom_right.1 >= acc[k].bottom_right.1
        },
{
    lemma_pass(orig, acc, l, orig.len() as int, bound);
    assert forall|k: int| 0 <= k < orig.len() implies {
        let b = #[trigger] nest_pass(orig, acc, l, orig.len() as int)[k];
        &&& b.top_left.0 <= acc[k].top_left.0
        &&& b.top_left.1 <= acc[k].top_left.1
        &&& b.bottom_right.0 >= acc[k].bottom_right.0
        &&& b.bottom_right.1 >= acc[k].bottom_right.1
    } by {
        if level(orig, k) == l {
            let kids = acc[k].child_indices;
            lemma_child_bounds_grow(acc, kids, corners(acc[k]));
            lemma_child_bounds_within(acc, kids, corners(acc[k]), bound);
        }
    }
}

/// Growing parents to hold their children only grows boxes: no corner of
/// any box moves inwards.
pub proof fn law_nested_never_shrinks(inv: InventoryV)
    requires
        nested_ok(inv),
    ensures
        nested_spec(inv).boxes.len() == inv.boxes.len(),
        forall|k: int| 0 <= k < inv.boxes.len() ==> {
            let b = #[trigger] nested_spec(inv).boxes[k];
            &&& b.top_left.0 <= inv.boxes[k].top_left.0
            &&& b.top_left.1 <= inv.boxes[k].top_left.1
            &&& b.bottom_right.0 >= inv.boxes[k].bottom_right.0
            &&& b.bottom_right.1 >= inv.boxes[k].bottom_right.1
        },
{
    let b = inv.boxes;
    let n = b.len() as int;
    lemma_pass(b, b, 1, n, 8 * MAX_COORD as int);
    lemma_pass_grows(b, b, 1, 8 * MAX_COORD as int);
    let r1 = nest_pass(b, b, 1, n);
    lemma_pass(b, r1, 2, n, 8 * MAX_COORD as int + 1);
    lemma_pass_grows(b, r1, 2, 8 * MAX_COORD as int + 1);
}

/// Every index in a group of side-by-side boxes names a box, and no box
/// is in two groups.
pub proof fn law_overlap_groups_disjoint(boxes: Seq<BoxV>)
    requires
        boxes.len() <= usize::MAX,
    ensures
        forall|q: int, a: int|
            0 <= q < overlap_groups(boxes).len() && 0 <= a < overlap_groups(boxes)[q].len() ==> (
            #[trigger] overlap_groups(boxes)[q][a]) < boxes.len(),
        forall|q1: int, q2: int, a: int, b: int|
            0 <= q1 < overlap_groups(boxes).len() && 0 <= q2 < overlap_groups(boxes).len() && q1 != q2 && 0 <= a
                < overlap_groups(boxes)[q1].len() && 0 <= b < overlap_groups(boxes)[q2].len()
                ==> #[trigger] overlap_groups(boxes)[q1][a] != #[trigger] overlap_groups(boxes)[q2][b],
{
    lemma_groups_disjoint(boxes, boxes.len());
}

} // verus!
