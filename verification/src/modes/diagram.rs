//! Diagram mode: detect and normalize ASCII diagrams (full pipeline).
//!
//! 1. Extract diagram blocks from content
//! 2. Convert to grid representation
//! 3. Detect primitives (boxes, arrows, text)
//! 4. Normalize geometry
//! 5. Render back to text
//! 6. Restore inline code spans

use vstd::prelude::*;

use crate::normalizer::{
    balance_ok, balance_spec, box_widths_ok, box_widths_spec, first_row_box, horizontal_spec, is_parent, level, lemma_pass_identity, nested_ok, nested_spec, overlap_groups, padding_box,
    padding_ok, padding_spec, sort_arrows, vertical_spec, widened_boxes, all_candidates,
    alignment_column, insert_arrow, first_where,
};
use crate::primitives::{BoxV, HorizontalArrow, InventoryV, LabelV, PrimitiveInventory, TextRowV, VerticalArrow, MAX_COORD};
use crate::renderer::{render_ok, render_onto_spec};
use crate::config::Config;
use crate::detector::detect_all_spec;
use crate::detector::boxes::grid_small;
use crate::grid::Grid;
use crate::inline_code::{InlineCodeSpanV, restore_inline_code, restore_upto, spans_view};
use crate::lists::lines_view;
use crate::scanner::{DiagramBlock, DiagramBlockV, blocks_view, diagram_blocks_spec, extract_diagram_blocks};
use crate::text::{chars_of, join_lines, join_lines_vec, lines, slice_vec, split_lines, string_of, trim_end};

verus! {

/// Every coordinate of the inventory is bounded: box corners in order
/// with right borders at most `bc` and other coordinates at most
/// `MAX_COORD`; text rows and vertical arrow columns at most `bc`; no box
/// has children and there are no connection lines.
pub open spec fn within(inv: InventoryV, bc: int) -> bool {
    &&& inv.boxes.len() <= MAX_COORD
    &&& forall|k: int| 0 <= k < inv.boxes.len() ==> box_fits(#[trigger] inv.boxes[k], bc)
    &&& forall|k: int| 0 <= k < inv.text_rows.len() ==> row_fits(#[trigger] inv.text_rows[k], bc)
    &&& forall|k: int| 0 <= k < inv.horizontal_arrows.len() ==> h_fits(#[trigger] inv.horizontal_arrows[k])
    &&& forall|k: int| 0 <= k < inv.vertical_arrows.len() ==> v_fits(#[trigger] inv.vertical_arrows[k], bc)
    &&& inv.connection_lines.len() == 0
    &&& forall|k: int| 0 <= k < inv.labels.len() ==> label_fits(#[trigger] inv.labels[k])
}

pub open spec fn box_fits(b: BoxV, bc: int) -> bool {
    &&& b.top_left.0 < b.bottom_right.0 <= MAX_COORD
    &&& b.top_left.1 < b.bottom_right.1 <= bc
    &&& b.top_left.1 <= MAX_COORD
    &&& b.child_indices.len() == 0
}

pub open spec fn row_fits(r: TextRowV, bc: int) -> bool {
    &&& r.row <= MAX_COORD
    &&& r.start_col <= bc
    &&& r.end_col <= bc
    &&& r.content.len() <= MAX_COORD
}

pub open spec fn h_fits(a: HorizontalArrow) -> bool {
    &&& a.row <= MAX_COORD
    &&& a.start_col <= MAX_COORD
    &&& a.end_col <= MAX_COORD
}

pub open spec fn v_fits(a: VerticalArrow, bc: int) -> bool {
    &&& a.col <= bc
    &&& a.start_row <= MAX_COORD
    &&& a.end_row <= MAX_COORD
}

pub open spec fn label_fits(l: LabelV) -> bool {
    &&& l.row <= MAX_COORD
    &&& l.col <= MAX_COORD
    &&& l.content.len() <= MAX_COORD
}

/// The normalization stages, in order.
pub open spec fn pipeline_spec(inv: InventoryV) -> InventoryV {
    padding_spec(balance_spec(vertical_spec(horizontal_spec(nested_spec(box_widths_spec(inv))))))
}

proof fn lemma_box_widths_stage(inv: InventoryV)
    requires
        within(inv, MAX_COORD as int),
    ensures
        box_widths_ok(inv),
        within(box_widths_spec(inv), 5 * MAX_COORD + 1),
{
    let bs = widened_boxes(inv);
    let out = box_widths_spec(inv);
    assert forall|k: int| 0 <= k < inv.boxes.len() implies {
        let b = #[trigger] bs[k];
        &&& b.top_left == inv.boxes[k].top_left
        &&& b.bottom_right.0 == inv.boxes[k].bottom_right.0
        &&& inv.boxes[k].bottom_right.1 <= b.bottom_right.1 <= 5 * MAX_COORD + 1
        &&& b.child_indices.len() == 0
    } by {
        crate::normalizer::lemma_max_content_bound(inv.text_rows, inv.boxes[k]);
    }
    assert forall|k: int| 0 <= k < inv.text_rows.len() implies match first_row_box(bs, #[trigger] inv.text_rows[k]) {
        Some(j) => bs[j].bottom_right.1 >= 1,
        None => true,
    } by {
        crate::normalizer::lemma_first_row_box(bs, inv.text_rows[k]);
    }
    assert forall|k: int| 0 <= k < out.text_rows.len() implies {
        let r = #[trigger] out.text_rows[k];
        &&& r.row <= MAX_COORD
        &&& r.start_col <= 5 * MAX_COORD + 1
        &&& r.end_col <= 5 * MAX_COORD + 1
        &&& r.content.len() <= MAX_COORD
    } by {
        crate::normalizer::lemma_first_row_box(bs, inv.text_rows[k]);
    }
}

proof fn lemma_nested_stage(inv: InventoryV, bc: int)
    requires
        within(inv, bc),
        MAX_COORD <= bc <= 8 * MAX_COORD,
    ensures
        nested_ok(inv),
        nested_spec(inv) == inv,
{
    let b = inv.boxes;
    let n = b.len() as int;
    assert forall|k: int| 0 <= k < n implies #[trigger] level(b, k) == 0 by {
        assert(!is_parent(b, k));
    }
    lemma_pass_identity(b, b, 1, n);
    lemma_pass_identity(b, b, 2, n);
    assert(nested_spec(inv).boxes == inv.boxes);
}

proof fn lemma_sort_bounded(s: Seq<HorizontalArrow>)
    requires
        forall|k: int| 0 <= k < s.len() ==> (#[trigger] s[k]).row <= MAX_COORD && s[k].start_col <= MAX_COORD
            && s[k].end_col <= MAX_COORD,
    ensures
        sort_arrows(s).len() == s.len(),
        forall|k: int| 0 <= k < sort_arrows(s).len() ==> (#[trigger] sort_arrows(s)[k]).row <= MAX_COORD
            && sort_arrows(s)[k].start_col <= MAX_COORD && sort_arrows(s)[k].end_col <= MAX_COORD,
    decreases s.len(),
{
    if s.len() > 0 {
        let d = s.drop_last();
        assert forall|k: int| 0 <= k < d.len() implies (#[trigger] d[k]).row <= MAX_COORD && d[k].start_col
            <= MAX_COORD && d[k].end_col <= MAX_COORD by {
            assert(d[k] == s[k]);
        }
        lemma_sort_bounded(d);
        let t = sort_arrows(d);
        let p = crate::normalizer::insert_pos(t, s.last());
        crate::normalizer::lemma_insert_pos(t, s.last());
        assert(s.last() == s[s.len() - 1]);
        let u = insert_arrow(t, s.last());
        assert forall|k: int| 0 <= k < u.len() implies (#[trigger] u[k]).row <= MAX_COORD && u[k].start_col
            <= MAX_COORD && u[k].end_col <= MAX_COORD by {
            if k < p {
                assert(u[k] == t[k]);
            } else if k > p {
                assert(u[k] == t[k - 1]);
            }
        }
    }
}

proof fn lemma_horizontal_stage(inv: InventoryV, bc: int)
    requires
        within(inv, bc),
    ensures
        within(horizontal_spec(inv), bc),
{
    assert forall|k: int| 0 <= k < inv.horizontal_arrows.len() implies (#[trigger] inv.horizontal_arrows[k]).row
        <= MAX_COORD && inv.horizontal_arrows[k].start_col <= MAX_COORD && inv.horizontal_arrows[k].end_col
        <= MAX_COORD by {}
    lemma_sort_bounded(inv.horizontal_arrows);
}

proof fn lemma_candidates_bounded(boxes: Seq<BoxV>, bc: int)
    requires
        forall|k: int| 0 <= k < boxes.len() ==> (#[trigger] boxes[k]).top_left.1 < boxes[k].bottom_right.1 <= bc,
    ensures
        forall|i: int| 0 <= i < all_candidates(boxes).len() ==> #[trigger] all_candidates(boxes)[i] <= bc,
    decreases boxes.len(),
{
    if boxes.len() > 0 {
        let d = boxes.drop_last();
        assert forall|k: int| 0 <= k < d.len() implies (#[trigger] d[k]).top_left.1 < d[k].bottom_right.1 <= bc by {
            assert(d[k] == boxes[k]);
        }
        lemma_candidates_bounded(d, bc);
        let b = boxes.last();
        assert(b == boxes[boxes.len() - 1]);
        let c = all_candidates(boxes);
        assert forall|i: int| 0 <= i < c.len() implies #[trigger] c[i] <= bc by {
            if i < all_candidates(d).len() {
                assert(c[i] == all_candidates(d)[i]);
            } else {
                let j = i - all_candidates(d).len();
                assert(c[i] == crate::normalizer::box_candidates(b)[j]);
            }
        }
    }
}

proof fn lemma_vertical_stage(inv: InventoryV, bc: int)
    requires
        within(inv, bc),
    ensures
        within(vertical_spec(inv), bc),
{
    let out = vertical_spec(inv);
    lemma_candidates_bounded(inv.boxes, bc);
    assert forall|k: int| 0 <= k < out.vertical_arrows.len() implies (#[trigger] out.vertical_arrows[k]).col <= bc by {
        let a = inv.vertical_arrows[k];
        crate::normalizer::lemma_closest_member(all_candidates(inv.boxes), a.col);
        match alignment_column(inv.boxes, a.col) {
            Some(c) => {
                let i = choose|i: int| 0 <= i < all_candidates(inv.boxes).len() && all_candidates(inv.boxes)[i] == c;
            },
            None => {},
        }
    }
}

proof fn lemma_balance_stage(inv: InventoryV, bc: int)
    requires
        within(inv, bc),
        MAX_COORD <= bc <= 8 * MAX_COORD,
    ensures
        balance_ok(inv),
        within(balance_spec(inv), 9 * MAX_COORD),
{
    let bv = inv.boxes;
    let gs = overlap_groups(bv);
    crate::normalizer::law_overlap_groups_disjoint(bv);
    let out = balance_spec(inv);
    assert forall|k: int| 0 <= k < out.boxes.len() implies {
        let b = #[trigger] out.boxes[k];
        &&& b.top_left == bv[k].top_left
        &&& b.bottom_right.0 == bv[k].bottom_right.0
        &&& bv[k].bottom_right.1 <= b.bottom_right.1 <= 9 * MAX_COORD
        &&& b.child_indices.len() == 0
    } by {
        let pr = |g2: Seq<usize>| g2.contains(k as usize);
        crate::normalizer::lemma_first_where(gs.take(gs.len() as int), pr);
        match first_where(gs.take(gs.len() as int), pr) {
            Some(p) => {
                let g = gs[p];
                assert(gs.take(gs.len() as int)[p] == g);
                assert forall|a: int| 0 <= a < g.len() implies (#[trigger] g[a]) < bv.len() && bv[g[a] as int].top_left.1
                    <= bv[g[a] as int].bottom_right.1 <= 8 * MAX_COORD by {
                    assert(gs[p][a] == g[a]);
                }
                crate::normalizer::lemma_group_max_width(bv, g);
            },
            None => {},
        }
    }
}

proof fn lemma_padding_stage(inv: InventoryV, bc: int)
    requires
        within(inv, bc),
        MAX_COORD + 1 <= bc,
    ensures
        padding_ok(inv),
        within(padding_spec(inv), bc),
{
    let out = padding_spec(inv);
    assert forall|k: int| 0 <= k < inv.text_rows.len() implies match padding_box(
        inv.boxes,
        #[trigger] inv.text_rows[k],
    ) {
        Some(j) => inv.boxes[j].top_left.1 < usize::MAX && inv.boxes[j].bottom_right.1 >= 1,
        None => true,
    } by {
        crate::normalizer::lemma_first_where(inv.boxes, |b: BoxV| crate::normalizer::encloses_row(b, inv.text_rows[k]));
    }
    assert forall|k: int| 0 <= k < out.text_rows.len() implies {
        let r = #[trigger] out.text_rows[k];
        &&& r.row <= MAX_COORD
        &&& r.start_col <= bc
        &&& r.end_col <= bc
        &&& r.content.len() <= MAX_COORD
    } by {
        crate::normalizer::lemma_first_where(inv.boxes, |b: BoxV| crate::normalizer::encloses_row(b, inv.text_rows[k]));
    }
}

proof fn lemma_render_stage(inv: InventoryV, bc: int)
    requires
        within(inv, bc),
        bc <= 32 * MAX_COORD,
    ensures
        render_ok(inv),
{
}

/// Every stage's precondition holds along the pipeline, and the result
/// can be rendered.
pub proof fn lemma_pipeline(inv: InventoryV)
    requires
        within(inv, MAX_COORD as int),
    ensures
        box_widths_ok(inv),
        nested_ok(box_widths_spec(inv)),
        balance_ok(vertical_spec(horizontal_spec(nested_spec(box_widths_spec(inv))))),
        padding_ok(balance_spec(vertical_spec(horizontal_spec(nested_spec(box_widths_spec(inv)))))),
        render_ok(pipeline_spec(inv)),
{
    let c1 = 5 * MAX_COORD + 1;
    lemma_box_widths_stage(inv);
    let i1 = box_widths_spec(inv);
    lemma_nested_stage(i1, c1);
    let i2 = nested_spec(i1);
    lemma_horizontal_stage(i2, c1);
    let i3 = horizontal_spec(i2);
    lemma_vertical_stage(i3, c1);
    let i4 = vertical_spec(i3);
    lemma_balance_stage(i4, c1);
    let i5 = balance_spec(i4);
    lemma_padding_stage(i5, 9 * MAX_COORD);
    lemma_render_stage(padding_spec(i5), 9 * MAX_COORD);
}

// ---------------------------------------------------------------------
// The pipeline
// ---------------------------------------------------------------------

fn count_chars(s: &String) -> (n: usize)
    ensures
        n == s@.len(),
{
    chars_of(s.as_str()).len()
}

fn boxes_fit(inventory: &PrimitiveInventory) -> (b: bool)
    ensures
        b == forall|q: int| 0 <= q < inventory@.boxes.len() ==> box_fits(#[trigger] inventory@.boxes[q], MAX_COORD as int),
{
    let ghost inv = inventory@;
    let mut k: usize = 0;
    while k < inventory.boxes.len()
        invariant
            k <= inv.boxes.len(),
            inv == inventory@,
            forall|q: int| 0 <= q < k ==> box_fits(#[trigger] inv.boxes[q], MAX_COORD as int),
        decreases inv.boxes.len() - k,
    {
        let b = &inventory.boxes[k];
        assert(inv.boxes[k as int] == b@);
        if !(b.top_left.0 < b.bottom_right.0 && b.bottom_right.0 <= MAX_COORD && b.top_left.1 < b.bottom_right.1
            && b.bottom_right.1 <= MAX_COORD && b.child_indices.len() == 0) {
            return false;
        }
        k += 1;
    }
    true
}

fn rows_fit(inventory: &PrimitiveInventory) -> (b: bool)
    ensures
        b == forall|q: int| 0 <= q < inventory@.text_rows.len() ==> row_fits(#[trigger] inventory@.text_rows[q], MAX_COORD as int),
{
    let ghost inv = inventory@;
    let mut k: usize = 0;
    while k < inventory.text_rows.len()
        invariant
            k <= inv.text_rows.len(),
            inv == inventory@,
            forall|q: int| 0 <= q < k ==> row_fits(#[trigger] inv.text_rows[q], MAX_COORD as int),
        decreases inv.text_rows.len() - k,
    {
        let r = &inventory.text_rows[k];
        assert(inv.text_rows[k as int] == r@);
        if !(r.row <= MAX_COORD && r.start_col <= MAX_COORD && r.end_col <= MAX_COORD && count_chars(&r.content) <= MAX_COORD) {
            return false;
        }
        k += 1;
    }
    true
}

fn arrows_fit(inventory: &PrimitiveInventory) -> (b: bool)
    ensures
        b == ((forall|q: int| 0 <= q < inventory@.horizontal_arrows.len() ==> h_fits(#[trigger] inventory@.horizontal_arrows[q]))
            && (forall|q: int| 0 <= q < inventory@.vertical_arrows.len() ==> v_fits(#[trigger] inventory@.vertical_arrows[q], MAX_COORD as int))),
{
    let ghost inv = inventory@;
    let mut k: usize = 0;
    while k < inventory.horizontal_arrows.len()
        invariant
            k <= inv.horizontal_arrows.len(),
            inv == inventory@,
            forall|q: int| 0 <= q < k ==> h_fits(#[trigger] inv.horizontal_arrows[q]),
        decreases inv.horizontal_arrows.len() - k,
    {
        let a = &inventory.horizontal_arrows[k];
        if !(a.row <= MAX_COORD && a.start_col <= MAX_COORD && a.end_col <= MAX_COORD) {
            return false;
        }
        k += 1;
    }
    let mut k: usize = 0;
    while k < inventory.vertical_arrows.len()
        invariant
            k <= inv.vertical_arrows.len(),
            inv == inventory@,
            forall|q: int| 0 <= q < inv.horizontal_arrows.len() ==> h_fits(#[trigger] inv.horizontal_arrows[q]),
            forall|q: int| 0 <= q < k ==> v_fits(#[trigger] inv.vertical_arrows[q], MAX_COORD as int),
        decreases inv.vertical_arrows.len() - k,
    {
        let a = &inventory.vertical_arrows[k];
        if !(a.col <= MAX_COORD && a.start_row <= MAX_COORD && a.end_row <= MAX_COORD) {
            return false;
        }
        k += 1;
    }
    true
}

fn labels_fit(inventory: &PrimitiveInventory) -> (b: bool)
    ensures
        b == forall|q: int| 0 <= q < inventory@.labels.len() ==> label_fits(#[trigger] inventory@.labels[q]),
{
    let ghost inv = inventory@;
    let mut k: usize = 0;
    while k < inventory.labels.len()
        invariant
            k <= inv.labels.len(),
            inv == inventory@,
            forall|q: int| 0 <= q < k ==> label_fits(#[trigger] inv.labels[q]),
        decreases inv.labels.len() - k,
    {
        let l = &inventory.labels[k];
        assert(inv.labels[k as int] == l@);
        if !(l.row <= MAX_COORD && l.col <= MAX_COORD && count_chars(&l.content) <= MAX_COORD) {
            return false;
        }
        k += 1;
    }
    true
}

/// Test the bounds of `within` on a detected inventory.
fn check_within(inventory: &PrimitiveInventory) -> (b: bool)
    ensures
        b == within(inventory@, MAX_COORD as int),
{
    inventory.boxes.len() <= MAX_COORD && inventory.connection_lines.len() == 0 && boxes_fit(inventory)
        && rows_fit(inventory) && arrows_fit(inventory) && labels_fit(inventory)
}

/// The inventory holds a box or an arrow.
pub open spec fn has_primitives(inv: InventoryV) -> bool {
    inv.boxes.len() > 0 || inv.horizontal_arrows.len() > 0 || inv.vertical_arrows.len() > 0
}

/// The grid of a block: its lines joined and split again.
pub open spec fn block_grid(b: DiagramBlockV) -> Seq<Seq<char>> {
    lines(join_lines(b.lines))
}

/// The rendered lines, each line with its inline code spans (if the block
/// recorded any for it) written back.
pub open spec fn restored_lines(rl: Seq<Seq<char>>, spans: Seq<Seq<InlineCodeSpanV>>) -> Seq<Seq<char>> {
    Seq::new(
        rl.len(),
        |i: int|
            if i < spans.len() {
                restore_upto(rl[i], spans[i], spans[i].len() as int)
            } else {
                rl[i]
            },
    )
}

/// The new lines for a block, or none when the block stays as it is: it
/// stays when it holds no box and no arrow, or when its grid or anything
/// detected in it reaches `MAX_COORD` rows or columns. Otherwise its
/// primitives go through every normalization stage, are drawn over the
/// block's grid, and the rows (trailing whitespace dropped) become the new
/// lines.
pub open spec fn render_block_spec(b: DiagramBlockV) -> Option<Seq<Seq<char>>> {
    let g = block_grid(b);
    if !grid_small(g) {
        None
    } else {
        let inv = detect_all_spec(g);
        if !has_primitives(inv) || !within(inv, MAX_COORD as int) {
            None
        } else {
            let rendered = join_lines(render_onto_spec(g, inv, pipeline_spec(inv)).map_values(|r: Seq<char>| trim_end(r)));
            Some(restored_lines(lines(rendered), b.inline_code_spans))
        }
    }
}

fn render_block(block: &DiagramBlock) -> (r: Option<Vec<Vec<char>>>)
    ensures
        match r {
            Some(v) => render_block_spec(block@) == Some(lines_view(v@)),
            None => render_block_spec(block@) is None,
        },
{
    let ghost bv = block@;
    let mut block_chars: Vec<Vec<char>> = Vec::new();
    let mut k: usize = 0;
    while k < block.lines.len()
        invariant
            k <= block.lines@.len(),
            bv == block@,
            lines_view(block_chars@) == bv.lines.take(k as int),
        decreases block.lines@.len() - k,
    {
        let ghost b = lines_view(block_chars@);
        let x = chars_of(block.lines[k].as_str());
        block_chars.push(x);
        assert(lines_view(block_chars@) =~= b.push(x@));
        k += 1;
        assert(lines_view(block_chars@) =~= bv.lines.take(k as int));
    }
    assert(bv.lines.take(k as int) =~= bv.lines);
    let joined = join_lines_vec(&block_chars);
    assert(block_chars@.map_values(|l: Vec<char>| l@) =~= bv.lines);
    let rows = split_lines(&joined);
    let grid = Grid::from_rows(rows);
    let ghost g = grid@;
    assert(g =~= block_grid(bv));
    if !(grid.height() < MAX_COORD && grid.width() < MAX_COORD) {
        return None;
    }
    let inventory = crate::detector::detect_all_primitives(&grid);
    if !(inventory.boxes.len() > 0 || inventory.horizontal_arrows.len() > 0 || inventory.vertical_arrows.len() > 0) {
        return None;
    }
    if !check_within(&inventory) {
        return None;
    }
    proof {
        lemma_pipeline(inventory@);
    }
    let normalized = crate::normalizer::normalize_box_widths(&inventory);
    let normalized = crate::normalizer::normalize_nested_boxes(&normalized);
    let normalized = crate::normalizer::align_horizontal_arrows(&normalized);
    let normalized = crate::normalizer::align_vertical_arrows(&normalized);
    let normalized = crate::normalizer::balance_horizontal_boxes(&normalized);
    let normalized = crate::normalizer::normalize_padding(&normalized);
    let rendered_grid = crate::renderer::render_onto_grid(&grid, &inventory, &normalized);
    let rendered = rendered_grid.render_trimmed();
    let rendered_lines = split_lines(&chars_of(rendered.as_str()));
    let ghost rl = lines(rendered@);
    let mut out: Vec<Vec<char>> = Vec::new();
    let mut i: usize = 0;
    while i < rendered_lines.len()
        invariant
            i <= rendered_lines@.len(),
            bv == block@,
            rl.len() == rendered_lines@.len(),
            forall|q: int| 0 <= q < rendered_lines@.len() ==> (#[trigger] rendered_lines@[q])@ == rl[q],
            lines_view(out@) == restored_lines(rl, bv.inline_code_spans).take(i as int),
        decreases rendered_lines@.len() - i,
    {
        let ghost b = lines_view(out@);
        let line = string_of(&rendered_lines[i]);
        let x = if i < block.inline_code_spans.len() {
            assert(bv.inline_code_spans[i as int] == spans_view(block.inline_code_spans@[i as int]@));
            chars_of(restore_inline_code(line.as_str(), block.inline_code_spans[i].as_slice()).as_str())
        } else {
            chars_of(line.as_str())
        };
        out.push(x);
        assert(lines_view(out@) =~= b.push(x@));
        i += 1;
        assert(lines_view(out@) =~= restored_lines(rl, bv.inline_code_spans).take(i as int));
    }
    assert(restored_lines(rl, bv.inline_code_spans).take(i as int) =~= restored_lines(rl, bv.inline_code_spans));
    Some(out)
}

/// The lines with `n` lines from `s` on replaced by `new` (as far as there
/// are lines to remove).
pub open spec fn splice(ls: Seq<Seq<char>>, s: int, n: int, new: Seq<Seq<char>>) -> Seq<Seq<char>> {
    let s2 = if s < ls.len() { s } else { ls.len() as int };
    let removed = if ls.len() - s2 < n { ls.len() - s2 } else { n };
    ls.take(s2) + new + ls.skip(s2 + removed)
}

/// The lines after the blocks from `k` on were processed, last block first.
pub open spec fn after_blocks(ls: Seq<Seq<char>>, bs: Seq<DiagramBlockV>, k: int) -> Seq<Seq<char>>
    decreases bs.len() - k,
{
    if k < 0 || k >= bs.len() {
        ls
    } else {
        let cur = after_blocks(ls, bs, k + 1);
        match render_block_spec(bs[k]) {
            Some(new) => splice(cur, bs[k].start_line, bs[k].lines.len() as int, new),
            None => cur,
        }
    }
}

/// Some block of the list is drawn again.
pub open spec fn some_rendered(bs: Seq<DiagramBlockV>) -> bool {
    exists|k: int| 0 <= k < bs.len() && (#[trigger] render_block_spec(bs[k])) is Some
}

/// What diagram mode makes of a text: unchanged when no diagram block is
/// drawn again (none found, or none holds a box or an arrow); otherwise
/// its lines with every drawn block replaced by its rendering, joined
/// again.
pub open spec fn diagram_mode_spec(content: Seq<char>) -> Seq<char> {
    let bs = diagram_blocks_spec(content);
    if !some_rendered(bs) {
        content
    } else {
        join_lines(after_blocks(lines(content), bs, 0))
    }
}

/// Diagram (and check) mode gives back the text as it was when no block
/// of it is drawn again: without diagram blocks, or when none holds a box
/// or an arrow.
pub proof fn law_diagram_mode_keeps_undrawn_text(content: Seq<char>)
    requires
        !some_rendered(diagram_blocks_spec(content)),
    ensures
        diagram_mode_spec(content) == content,
{
}

fn splice_vec(ls: &Vec<Vec<char>>, s: usize, n: usize, new: Vec<Vec<char>>) -> (r: Vec<Vec<char>>)
    ensures
        lines_view(r@) == splice(lines_view(ls@), s as int, n as int, lines_view(new@)),
{
    let ghost lv = lines_view(ls@);
    let s2 = if s < ls.len() { s } else { ls.len() };
    let removed = if ls.len() - s2 < n { ls.len() - s2 } else { n };
    let mut r: Vec<Vec<char>> = Vec::new();
    let mut k: usize = 0;
    while k < s2
        invariant
            k <= s2 <= ls@.len(),
            lv == lines_view(ls@),
            lines_view(r@) == lv.take(k as int),
        decreases s2 - k,
    {
        let ghost b = lines_view(r@);
        let x = slice_vec(&ls[k], 0, ls[k].len());
        assert(x@ =~= lv[k as int]);
        r.push(x);
        assert(lines_view(r@) =~= b.push(x@));
        k += 1;
        assert(lines_view(r@) =~= lv.take(k as int));
    }
    let ghost mid = lines_view(r@);
    let mut q: usize = 0;
    while q < new.len()
        invariant
            q <= new@.len(),
            lines_view(r@) == mid + lines_view(new@).take(q as int),
        decreases new@.len() - q,
    {
        let ghost b = lines_view(r@);
        let x = slice_vec(&new[q], 0, new[q].len());
        assert(x@ =~= lines_view(new@)[q as int]);
        r.push(x);
        assert(lines_view(r@) =~= b.push(x@));
        q += 1;
        assert(lines_view(r@) =~= mid + lines_view(new@).take(q as int));
    }
    assert(lines_view(new@).take(q as int) =~= lines_view(new@));
    let ghost mid2 = lines_view(r@);
    let mut k: usize = s2 + removed;
    while k < ls.len()
        invariant
            s2 + removed <= k <= ls@.len(),
            lv == lines_view(ls@),
            lines_view(r@) == mid2 + lv.subrange(s2 + removed, k as int),
        decreases ls@.len() - k,
    {
        let ghost b = lines_view(r@);
        let x = slice_vec(&ls[k], 0, ls[k].len());
        assert(x@ =~= lv[k as int]);
        r.push(x);
        assert(lines_view(r@) =~= b.push(x@));
        k += 1;
        assert(lines_view(r@) =~= mid2 + lv.subrange(s2 + removed, k as int));
    }
    assert(lv.subrange(s2 + removed, k as int) =~= lv.skip(s2 + removed));
    r
}

/// Diagram mode: detect and normalize ASCII diagrams (full pipeline).
pub fn process_diagram_mode(content: &str, _config: &Config) -> (r: String)
    ensures
        r@ == diagram_mode_spec(content@),
{
    let blocks = extract_diagram_blocks(content);
    let ghost bs = blocks_view(blocks@);
    if blocks.len() == 0 {
        assert(!some_rendered(bs));
        return string_of(&chars_of(content));
    }
    let mut lines_now = split_lines(&chars_of(content));
    assert(lines_view(lines_now@) =~= lines(content@));
    let mut k = blocks.len();
    let mut rendered_any = false;
    while k > 0
        invariant
            k <= blocks@.len(),
            bs == blocks_view(blocks@),
            lines_view(lines_now@) == after_blocks(lines(content@), bs, k as int),
            rendered_any <==> exists|q: int| k <= q < bs.len() && (#[trigger] render_block_spec(bs[q])) is Some,
        decreases k,
    {
        k -= 1;
        let block = &blocks[k];
        assert(bs[k as int] == block@);
        match render_block(block) {
            Some(new_lines) => {
                lines_now = splice_vec(&lines_now, block.start_line, block.lines.len(), new_lines);
                rendered_any = true;
            },
            None => {},
        }
    }
    if !rendered_any {
        return string_of(&chars_of(content));
    }
    let joined = join_lines_vec(&lines_now);
    assert(lines_now@.map_values(|l: Vec<char>| l@) =~= lines_view(lines_now@));
    string_of(&joined)
}

} // verus!
