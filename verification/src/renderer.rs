//! Render normalized primitives back to ASCII grid.

use vstd::prelude::*;

use crate::grid::{cell, set_cell, Grid, max_row_len};
use crate::primitives::{
    Box as DiagramBox, BoxChars, BoxV, HorizontalArrow, VerticalArrow, TextRow, TextRowV,
    ConnectionLine, ConnectionLineV, Segment, Label, LabelV, LabelAttachment, InventoryV,
    PrimitiveInventory,
    box_chars_spec, arrow_chars_spec, MAX_COORD,
};
use crate::text::{chars_of, byte_len, byte_len_vec, is_blank, is_blank_vec, slice_vec, lemma_byte_len_bounds};

verus! {

// ---------------------------------------------------------------------------
// Cell-wise painting
// ---------------------------------------------------------------------------

/// The grid of the same shape with each cell replaced by `f(row, col, old)`.
pub open spec fn paint(g: Seq<Seq<char>>, f: spec_fn(int, int, char) -> char) -> Seq<Seq<char>> {
    Seq::new(g.len(), |r: int| Seq::new(g[r].len(), |c: int| f(r, c, g[r][c])))
}

/// Setting one cell of a painted grid paints it with the rule changed at
/// that cell alone.
pub proof fn lemma_set_paint(
    g: Seq<Seq<char>>,
    f: spec_fn(int, int, char) -> char,
    f2: spec_fn(int, int, char) -> char,
    r0: int,
    c0: int,
    ch: char,
)
    requires
        forall|r: int, c: int|
            0 <= r < g.len() && 0 <= c < g[r].len() ==> #[trigger] f2(r, c, g[r][c]) == if r == r0 && c
                == c0 {
                ch
            } else {
                f(r, c, g[r][c])
            },
    ensures
        set_cell(paint(g, f), r0, c0, ch) == paint(g, f2),
{
    let a = set_cell(paint(g, f), r0, c0, ch);
    let b = paint(g, f2);
    assert(a.len() == b.len());
    assert forall|r: int| 0 <= r < a.len() implies a[r] =~= b[r] by {
        assert forall|c: int| 0 <= c < a[r].len() implies a[r][c] == b[r][c] by {
            assert(f2(r, c, g[r][c]) == b[r][c]);
        }
    }
    assert(a =~= b);
}

/// Painting with a rule that keeps every cell changes nothing.
pub proof fn lemma_paint_id(g: Seq<Seq<char>>, f: spec_fn(int, int, char) -> char)
    requires
        forall|r: int, c: int| 0 <= r < g.len() && 0 <= c < g[r].len() ==> #[trigger] f(r, c, g[r][c]) == g[r][c],
    ensures
        paint(g, f) == g,
{
    assert forall|r: int| 0 <= r < g.len() implies paint(g, f)[r] =~= g[r] by {
        assert forall|c: int| 0 <= c < g[r].len() implies paint(g, f)[r][c] == g[r][c] by {
            assert(f(r, c, g[r][c]) == g[r][c]);
        }
    }
    assert(paint(g, f) =~= g);
}

// ---------------------------------------------------------------------------
// Boxes
// ---------------------------------------------------------------------------

/// The character a box leaves at (r, c) over `old`: corners (the bottom-right
/// drawn last), then the side borders, then the top and bottom borders.
pub open spec fn box_cell(b: BoxV, ch: BoxChars, r: int, c: int, old: char) -> char {
    let t = b.top_left.0 as int;
    let l = b.top_left.1 as int;
    let bo = b.bottom_right.0 as int;
    let ri = b.bottom_right.1 as int;
    if r == bo && c == ri {
        ch.bottom_right
    } else if r == bo && c == l {
        ch.bottom_left
    } else if r == t && c == ri {
        ch.top_right
    } else if r == t && c == l {
        ch.top_left
    } else if (c == l || c == ri) && t <= r <= bo {
        ch.vertical
    } else if (r == t || r == bo) && l <= c <= ri {
        ch.horizontal
    } else {
        old
    }
}

/// The grid after drawing the box.
pub open spec fn draw_box_spec(g: Seq<Seq<char>>, b: BoxV) -> Seq<Seq<char>> {
    paint(g, |r: int, c: int, o: char| box_cell(b, box_chars_spec(b.style), r, c, o))
}

/// Rule after the top and bottom borders up to column `k` (exclusive).
pub open spec fn hborder_cell(b: BoxV, ch: BoxChars, k: int, r: int, c: int, old: char) -> char {
    if (r == b.top_left.0 || r == b.bottom_right.0) && b.top_left.1 <= c < k {
        ch.horizontal
    } else {
        old
    }
}

/// Rule after the side borders up to row `k` (exclusive), over the top and
/// bottom borders.
pub open spec fn vborder_cell(b: BoxV, ch: BoxChars, k: int, r: int, c: int, old: char) -> char {
    if (c == b.top_left.1 || c == b.bottom_right.1) && b.top_left.0 <= r < k {
        ch.vertical
    } else {
        hborder_cell(b, ch, b.bottom_right.1 + 1, r, c, old)
    }
}

/// Rule after the first `n` corners, over the borders.
pub open spec fn corner_cell(b: BoxV, ch: BoxChars, n: int, r: int, c: int, old: char) -> char {
    let t = b.top_left.0 as int;
    let l = b.top_left.1 as int;
    let bo = b.bottom_right.0 as int;
    let ri = b.bottom_right.1 as int;
    if n >= 4 && r == bo && c == ri {
        ch.bottom_right
    } else if n >= 3 && r == bo && c == l {
        ch.bottom_left
    } else if n >= 2 && r == t && c == ri {
        ch.top_right
    } else if n >= 1 && r == t && c == l {
        ch.top_left
    } else {
        vborder_cell(b, ch, bo + 1, r, c, old)
    }
}

pub open spec fn hborder(b: BoxV, ch: BoxChars, k: int) -> spec_fn(int, int, char) -> char {
    |r: int, c: int, o: char| hborder_cell(b, ch, k, r, c, o)
}

pub open spec fn vborder(b: BoxV, ch: BoxChars, k: int) -> spec_fn(int, int, char) -> char {
    |r: int, c: int, o: char| vborder_cell(b, ch, k, r, c, o)
}

pub open spec fn corners_rule(b: BoxV, ch: BoxChars, n: int) -> spec_fn(int, int, char) -> char {
    |r: int, c: int, o: char| corner_cell(b, ch, n, r, c, o)
}

/// The rule with one cell changed.
pub open spec fn with_cell(f: spec_fn(int, int, char) -> char, r0: int, c0: int, ch: char) -> spec_fn(
    int,
    int,
    char,
) -> char {
    |r: int, c: int, o: char| if r == r0 && c == c0 {
        ch
    } else {
        f(r, c, o)
    }
}

/// The rule that keeps every cell.
pub open spec fn keep() -> spec_fn(int, int, char) -> char {
    |r: int, c: int, o: char| o
}

/// Draw a box on the grid.
fn draw_box(grid: &mut Grid, b: &DiagramBox)
    requires
        b.bottom_right.0 < usize::MAX,
        b.bottom_right.1 < usize::MAX,
    ensures
        final(grid)@ == draw_box_spec(old(grid)@, b@),
{
    let ghost g0 = grid@;
    let ghost bv = b@;
    let chars = b.style.chars();
    let ghost ch = chars;
    let mut col = b.top_left.1;
    proof {
        lemma_paint_id(g0, hborder(bv, ch, col as int));
    }
    while col <= b.bottom_right.1
        invariant
            b.top_left.1 <= col,
            col <= b.bottom_right.1 + 1 || col == b.top_left.1,
            b.bottom_right.1 < usize::MAX,
            bv == b@,
            ch == chars,
            grid@ == paint(g0, hborder(bv, ch, col as int)),
        decreases b.bottom_right.1 + 1 - col,
    {
        proof {
            let f0 = hborder(bv, ch, col as int);
            let f1 = with_cell(f0, bv.top_left.0 as int, col as int, ch.horizontal);
            let f2 = hborder(bv, ch, col + 1);
            lemma_set_paint(g0, f0, f1, b.top_left.0 as int, col as int, chars.horizontal);
            lemma_set_paint(g0, f1, f2, b.bottom_right.0 as int, col as int, chars.horizontal);
        }
        grid.set(b.top_left.0, col, chars.horizontal);
        grid.set(b.bottom_right.0, col, chars.horizontal);
        col += 1;
    }
    let mut row = b.top_left.0;
    proof {
        assert(paint(g0, hborder(bv, ch, col as int)) =~~= paint(g0, vborder(bv, ch, row as int)));
    }
    while row <= b.bottom_right.0
        invariant
            b.top_left.0 <= row,
            row <= b.bottom_right.0 + 1 || row == b.top_left.0,
            b.bottom_right.0 < usize::MAX,
            bv == b@,
            ch == chars,
            grid@ == paint(g0, vborder(bv, ch, row as int)),
        decreases b.bottom_right.0 + 1 - row,
    {
        proof {
            let f0 = vborder(bv, ch, row as int);
            let f1 = with_cell(f0, row as int, bv.top_left.1 as int, ch.vertical);
            let f2 = vborder(bv, ch, row + 1);
            lemma_set_paint(g0, f0, f1, row as int, b.top_left.1 as int, chars.vertical);
            lemma_set_paint(g0, f1, f2, row as int, b.bottom_right.1 as int, chars.vertical);
        }
        grid.set(row, b.top_left.1, chars.vertical);
        grid.set(row, b.bottom_right.1, chars.vertical);
        row += 1;
    }
    proof {
        assert(paint(g0, vborder(bv, ch, row as int)) =~~= paint(g0, corners_rule(bv, ch, 0)));
        lemma_set_paint(g0, corners_rule(bv, ch, 0), corners_rule(bv, ch, 1), bv.top_left.0 as int, bv.top_left.1 as int, ch.top_left);
        lemma_set_paint(g0, corners_rule(bv, ch, 1), corners_rule(bv, ch, 2), bv.top_left.0 as int, bv.bottom_right.1 as int, ch.top_right);
        lemma_set_paint(g0, corners_rule(bv, ch, 2), corners_rule(bv, ch, 3), bv.bottom_right.0 as int, bv.top_left.1 as int, ch.bottom_left);
        lemma_set_paint(g0, corners_rule(bv, ch, 3), corners_rule(bv, ch, 4), bv.bottom_right.0 as int, bv.bottom_right.1 as int, ch.bottom_right);
        assert(paint(g0, corners_rule(bv, ch, 4)) =~~= draw_box_spec(g0, bv));
    }
    grid.set(b.top_left.0, b.top_left.1, chars.top_left);
    grid.set(b.top_left.0, b.bottom_right.1, chars.top_right);
    grid.set(b.bottom_right.0, b.top_left.1, chars.bottom_left);
    grid.set(b.bottom_right.0, b.bottom_right.1, chars.bottom_right);
}

/// Painting with two rules that agree on every cell of the grid gives the
/// same grid.
pub proof fn lemma_paint_same(g: Seq<Seq<char>>, f1: spec_fn(int, int, char) -> char, f2: spec_fn(int, int, char) -> char)
    requires
        forall|r: int, c: int|
            0 <= r < g.len() && 0 <= c < g[r].len() ==> #[trigger] f1(r, c, g[r][c]) == f2(r, c, g[r][c]),
    ensures
        paint(g, f1) == paint(g, f2),
{
    assert forall|r: int| 0 <= r < g.len() implies paint(g, f1)[r] =~= paint(g, f2)[r] by {
        assert forall|c: int| 0 <= c < g[r].len() implies paint(g, f1)[r][c] == paint(g, f2)[r][c] by {
            assert(f1(r, c, g[r][c]) == f2(r, c, g[r][c]));
        }
    }
    assert(paint(g, f1) =~= paint(g, f2));
}

// ---------------------------------------------------------------------------
// Text rows
// ---------------------------------------------------------------------------

/// The character a text row leaves at (r, c) over `old`: its content from
/// the start column, cut at the end column.
pub open spec fn text_cell(t: TextRowV, k: int, r: int, c: int, old: char) -> char {
    if r == t.row && t.start_col <= c <= t.end_col && c - t.start_col < k && c - t.start_col
        < t.content.len() {
        t.content[c - t.start_col]
    } else {
        old
    }
}

/// The rule of a text row whose first `k` characters are drawn.
pub open spec fn text_rule(t: TextRowV, k: int) -> spec_fn(int, int, char) -> char {
    |r: int, c: int, o: char| text_cell(t, k, r, c, o)
}

/// The grid after drawing the text row.
pub open spec fn draw_text_row_spec(g: Seq<Seq<char>>, t: TextRowV) -> Seq<Seq<char>> {
    paint(g, text_rule(t, t.content.len() as int))
}

/// Draw a text row on the grid.
fn draw_text_row(grid: &mut Grid, row: &TextRow)
    requires
        row.start_col + row@.content.len() <= usize::MAX,
    ensures
        final(grid)@ == draw_text_row_spec(old(grid)@, row@),
{
    let ghost g0 = grid@;
    let ghost t = row@;
    let content = chars_of(row.content.as_str());
    let mut i: usize = 0;
    proof {
        lemma_paint_id(g0, text_rule(t, 0));
    }
    while i < content.len()
        invariant
            i <= content@.len(),
            content@ == t.content,
            t == row@,
            row.start_col + t.content.len() <= usize::MAX,
            grid@ == paint(g0, text_rule(t, i as int)),
        decreases content@.len() - i,
    {
        let col = row.start_col + i;
        if col <= row.end_col {
            proof {
                lemma_set_paint(g0, text_rule(t, i as int), text_rule(t, i + 1), row.row as int, col as int, content@[i as int]);
            }
            grid.set(row.row, col, content[i]);
        } else {
            proof {
                lemma_paint_same(g0, text_rule(t, i as int), text_rule(t, i + 1));
            }
        }
        i += 1;
    }
}

// ---------------------------------------------------------------------------
// Arrows
// ---------------------------------------------------------------------------

/// The character drawn for a horizontal arrow: the one found in the source,
/// else the arrowhead of its type and direction.
pub open spec fn harrow_char(a: HorizontalArrow) -> char {
    match a.arrow_char {
        Some(c) => c,
        None => if a.rightward {
            arrow_chars_spec(a.arrow_type).arrowhead_right
        } else {
            arrow_chars_spec(a.arrow_type).arrowhead_left
        },
    }
}

/// A horizontal arrow fills the blank cells of its row span, up to column
/// `k` (exclusive).
pub open spec fn harrow_rule(a: HorizontalArrow, k: int) -> spec_fn(int, int, char) -> char {
    |r: int, c: int, o: char| if r == a.row && a.start_col <= c <= a.end_col && c < k && o == ' ' {
        harrow_char(a)
    } else {
        o
    }
}

/// The grid after drawing the horizontal arrow.
pub open spec fn draw_harrow_spec(g: Seq<Seq<char>>, a: HorizontalArrow) -> Seq<Seq<char>> {
    paint(g, harrow_rule(a, a.end_col + 1))
}

/// Draw a horizontal arrow on the grid.
fn draw_horizontal_arrow(grid: &mut Grid, arrow: &HorizontalArrow)
    requires
        arrow.end_col < usize::MAX,
    ensures
        final(grid)@ == draw_harrow_spec(old(grid)@, *arrow),
{
    let ghost g0 = grid@;
    let arrow_char = match arrow.arrow_char {
        Some(c) => c,
        None => {
            let chars = arrow.arrow_type.chars();
            if arrow.rightward {
                chars.arrowhead_right
            } else {
                chars.arrowhead_left
            }
        },
    };
    let mut col = arrow.start_col;
    proof {
        lemma_paint_id(g0, harrow_rule(*arrow, col as int));
    }
    while col <= arrow.end_col
        invariant
            arrow.start_col <= col,
            col <= arrow.end_col + 1 || col == arrow.start_col,
            arrow.end_col < usize::MAX,
            arrow_char == harrow_char(*arrow),
            grid@ == paint(g0, harrow_rule(*arrow, col as int)),
        decreases arrow.end_col + 1 - col,
    {
        let cur = grid.get(arrow.row, col);
        if cur == Some(' ') {
            proof {
                lemma_set_paint(g0, harrow_rule(*arrow, col as int), harrow_rule(*arrow, col + 1), arrow.row as int, col as int, arrow_char);
            }
            grid.set(arrow.row, col, arrow_char);
        } else {
            proof {
                lemma_paint_same(g0, harrow_rule(*arrow, col as int), harrow_rule(*arrow, col + 1));
            }
        }
        col += 1;
    }
    proof {
        lemma_paint_same(g0, harrow_rule(*arrow, col as int), harrow_rule(*arrow, arrow.end_col + 1));
    }
}

/// The character drawn for a vertical arrow.
pub open spec fn varrow_char(a: VerticalArrow) -> char {
    match a.arrow_char {
        Some(c) => c,
        None => if a.downward {
            '↓'
        } else {
            '↑'
        },
    }
}

/// A vertical arrow of one cell overwrites it; a longer one fills the blank
/// cells of its column span, up to row `k` (exclusive).
pub open spec fn varrow_rule(a: VerticalArrow, k: int) -> spec_fn(int, int, char) -> char {
    |r: int, c: int, o: char|
        if a.start_row == a.end_row {
            if r == a.start_row && c == a.col && k > a.start_row {
                varrow_char(a)
            } else {
                o
            }
        } else if c == a.col && a.start_row <= r <= a.end_row && r < k && o == ' ' {
            varrow_char(a)
        } else {
            o
        }
}

/// The grid after drawing the vertical arrow.
pub open spec fn draw_varrow_spec(g: Seq<Seq<char>>, a: VerticalArrow) -> Seq<Seq<char>> {
    paint(g, varrow_rule(a, a.end_row + 1))
}

/// Draw a vertical arrow on the grid.
fn draw_vertical_arrow(grid: &mut Grid, arrow: &VerticalArrow)
    requires
        arrow.end_row < usize::MAX,
    ensures
        final(grid)@ == draw_varrow_spec(old(grid)@, *arrow),
{
    let ghost g0 = grid@;
    let default_char = if arrow.downward { '↓' } else { '↑' };
    let arrow_char = match arrow.arrow_char {
        Some(c) => c,
        None => default_char,
    };
    if arrow.start_row == arrow.end_row {
        proof {
            lemma_paint_id(g0, varrow_rule(*arrow, arrow.start_row as int));
            lemma_set_paint(g0, varrow_rule(*arrow, arrow.start_row as int), varrow_rule(*arrow, arrow.end_row + 1), arrow.start_row as int, arrow.col as int, arrow_char);
        }
        grid.set(arrow.start_row, arrow.col, arrow_char);
        return;
    }
    let mut row = arrow.start_row;
    proof {
        lemma_paint_id(g0, varrow_rule(*arrow, row as int));
    }
    while row <= arrow.end_row
        invariant
            arrow.start_row != arrow.end_row,
            arrow.start_row <= row,
            row <= arrow.end_row + 1 || row == arrow.start_row,
            arrow.end_row < usize::MAX,
            arrow_char == varrow_char(*arrow),
            grid@ == paint(g0, varrow_rule(*arrow, row as int)),
        decreases arrow.end_row + 1 - row,
    {
        let cur = grid.get(row, arrow.col);
        if cur == Some(' ') {
            proof {
                lemma_set_paint(g0, varrow_rule(*arrow, row as int), varrow_rule(*arrow, row + 1), row as int, arrow.col as int, arrow_char);
            }
            grid.set(row, arrow.col, arrow_char);
        } else {
            proof {
                lemma_paint_same(g0, varrow_rule(*arrow, row as int), varrow_rule(*arrow, row + 1));
            }
        }
        row += 1;
    }
    proof {
        lemma_paint_same(g0, varrow_rule(*arrow, row as int), varrow_rule(*arrow, arrow.end_row + 1));
    }
}

/// Some box has (row, col) strictly inside its border.
pub open spec fn inside_any_box(boxes: Seq<BoxV>, row: int, col: int) -> bool {
    exists|k: int| 0 <= k < boxes.len() && (#[trigger] boxes[k]).interior(row, col)
}

/// Check if a position (row, col) falls inside any box's interior.
fn is_position_inside_any_box(boxes: &[DiagramBox], row: usize, col: usize) -> (b: bool)
    ensures
        b == inside_any_box(boxes@.map_values(|x: DiagramBox| x@), row as int, col as int),
{
    let ghost bv = boxes@.map_values(|x: DiagramBox| x@);
    let mut k: usize = 0;
    while k < boxes.len()
        invariant
            k <= boxes@.len(),
            bv == boxes@.map_values(|x: DiagramBox| x@),
            forall|q: int| 0 <= q < k ==> !(#[trigger] bv[q]).interior(row as int, col as int),
        decreases boxes@.len() - k,
    {
        let b = &boxes[k];
        proof { assert(bv[k as int] == b@); }
        if row > b.top_left.0 && row < b.bottom_right.0 && col > b.top_left.1 && col < b.bottom_right.1 {
            assert(bv[k as int].interior(row as int, col as int));
            return true;
        }
        k += 1;
    }
    false
}

// ---------------------------------------------------------------------------
// Connection lines
// ---------------------------------------------------------------------------

/// Where segments `i` and `i + 1` meet at an elbow: the end of a horizontal
/// segment followed by a vertical one, or the end of a vertical segment
/// followed by a horizontal one.
pub open spec fn junction_at(segs: Seq<Segment>, i: int) -> Option<(usize, usize)> {
    match (segs[i], segs[i + 1]) {
        (Segment::Horizontal { row, end_col, .. }, Segment::Vertical { .. }) => Some((row, end_col)),
        (Segment::Vertical { col, end_row, .. }, Segment::Horizontal { .. }) => Some((end_row, col)),
        _ => None,
    }
}

/// The junctions of the first `k` pairs of consecutive segments.
pub open spec fn junctions_upto(segs: Seq<Segment>, k: int) -> Seq<(usize, usize)>
    decreases k,
{
    if k <= 0 {
        Seq::empty()
    } else {
        let js = junctions_upto(segs, k - 1);
        match junction_at(segs, k - 1) {
            Some(p) => js.push(p),
            None => js,
        }
    }
}

/// The junctions of a connection line.
pub open spec fn junctions(segs: Seq<Segment>) -> Seq<(usize, usize)> {
    if segs.len() >= 2 {
        junctions_upto(segs, segs.len() - 1)
    } else {
        Seq::empty()
    }
}

/// The point (r, c) is listed.
pub open spec fn has_point(js: Seq<(usize, usize)>, r: int, c: int) -> bool {
    exists|q: int| 0 <= q < js.len() && (#[trigger] js[q]).0 == r && js[q].1 == c
}

/// Characters of connection lines, which a segment may draw over.
pub open spec fn is_line_char_spec(c: char) -> bool {
    c == '─' || c == '│' || c == '┌' || c == '┐' || c == '└' || c == '┘' || c == '├' || c == '┤'
        || c == '┬' || c == '┴' || c == '┼'
}

/// Check if a character is a connection line character that can be overwritten.
fn is_connection_line_char(c: char) -> (b: bool)
    ensures
        b == is_line_char_spec(c),
{
    c == '─' || c == '│' || c == '┌' || c == '┐' || c == '└' || c == '┘' || c == '├' || c == '┤'
        || c == '┬' || c == '┴' || c == '┼'
}

/// A segment draws its line over blank or line cells of its span, except at
/// junctions, up to position `k` (exclusive) along the span.
pub open spec fn segment_rule(seg: Segment, js: Seq<(usize, usize)>, k: int) -> spec_fn(int, int, char) -> char {
    |r: int, c: int, o: char|
        match seg {
            Segment::Horizontal { row, start_col, end_col } => if r == row && start_col <= c <= end_col
                && c < k && !has_point(js, r, c) && (o == ' ' || is_line_char_spec(o)) {
                '─'
            } else {
                o
            },
            Segment::Vertical { col, start_row, end_row } => if c == col && start_row <= r <= end_row
                && r < k && !has_point(js, r, c) && (o == ' ' || is_line_char_spec(o)) {
                '│'
            } else {
                o
            },
        }
}

/// The end of a segment's span.
pub open spec fn segment_end(seg: Segment) -> int {
    match seg {
        Segment::Horizontal { end_col, .. } => end_col as int,
        Segment::Vertical { end_row, .. } => end_row as int,
    }
}

/// The grid after drawing the first `k` segments.
pub open spec fn segments_paint(g: Seq<Seq<char>>, segs: Seq<Segment>, js: Seq<(usize, usize)>, k: int) -> Seq<Seq<char>>
    decreases k,
{
    if k <= 0 {
        g
    } else {
        paint(segments_paint(g, segs, js, k - 1), segment_rule(segs[k - 1], js, segment_end(segs[k - 1]) + 1))
    }
}

/// Which ways the segments meet at (r, c): (from the left, from the right,
/// from above, from below), as the segment classification reads them.
pub open spec fn elbow_flags(segs: Seq<Segment>, r: int, c: int) -> (bool, bool, bool, bool)
    decreases segs.len(),
{
    if segs.len() == 0 {
        (false, false, false, false)
    } else {
        let f = elbow_flags(segs.drop_last(), r, c);
        match segs.last() {
            Segment::Horizontal { row, start_col, end_col } => if row == r && start_col <= c
                <= end_col {
                if c == start_col {
                    (f.0, true, f.2, f.3)
                } else if c == end_col {
                    (true, f.1, f.2, f.3)
                } else {
                    f
                }
            } else {
                f
            },
            Segment::Vertical { col, start_row, end_row } => if col == c && start_row <= r
                <= end_row {
                if r == start_row {
                    (f.0, f.1, true, f.3)
                } else if r == end_row {
                    (f.0, f.1, f.2, true)
                } else {
                    f
                }
            } else {
                f
            },
        }
    }
}

/// The elbow drawn at (r, c), if the segments meet there in an L.
pub open spec fn elbow_char(segs: Seq<Segment>, r: int, c: int) -> Option<char> {
    let f = elbow_flags(segs, r, c);
    if f.0 && !f.1 && f.2 && !f.3 {
        Some('┌')
    } else if !f.0 && f.1 && f.2 && !f.3 {
        Some('┐')
    } else if f.0 && !f.1 && !f.2 && f.3 {
        Some('└')
    } else if !f.0 && f.1 && !f.2 && f.3 {
        Some('┘')
    } else {
        None
    }
}

/// Elbows at the listed junctions, on blank cells.
pub open spec fn elbow_rule(segs: Seq<Segment>, js: Seq<(usize, usize)>) -> spec_fn(int, int, char) -> char {
    |r: int, c: int, o: char|
        if has_point(js, r, c) && o == ' ' && elbow_char(segs, r, c) is Some {
            elbow_char(segs, r, c)->0
        } else {
            o
        }
}

/// The grid after drawing the connection line.
pub open spec fn draw_connection_spec(g: Seq<Seq<char>>, conn: ConnectionLineV) -> Seq<Seq<char>> {
    let js = junctions(conn.segments);
    paint(segments_paint(g, conn.segments, js, conn.segments.len() as int), elbow_rule(conn.segments, js))
}

/// The ends of every segment are below `usize::MAX`.
pub open spec fn segments_small(segs: Seq<Segment>) -> bool {
    forall|k: int| 0 <= k < segs.len() ==> segment_end(#[trigger] segs[k]) < usize::MAX
}

fn junction_points(segs: &Vec<Segment>) -> (js: Vec<(usize, usize)>)
    ensures
        js@ == junctions(segs@),
{
    let mut js: Vec<(usize, usize)> = Vec::new();
    if segs.len() >= 2 {
        let mut i: usize = 0;
        while i < segs.len() - 1
            invariant
                segs@.len() >= 2,
                i <= segs@.len() - 1,
                js@ == junctions_upto(segs@, i as int),
            decreases segs@.len() - 1 - i,
        {
            match (segs[i], segs[i + 1]) {
                (Segment::Horizontal { row, end_col, .. }, Segment::Vertical { .. }) => {
                    js.push((row, end_col));
                },
                (Segment::Vertical { col, end_row, .. }, Segment::Horizontal { .. }) => {
                    js.push((end_row, col));
                },
                _ => {},
            }
            i += 1;
        }
    }
    js
}

fn contains_point(js: &Vec<(usize, usize)>, p: (usize, usize)) -> (b: bool)
    ensures
        b == has_point(js@, p.0 as int, p.1 as int),
{
    let mut k: usize = 0;
    while k < js.len()
        invariant
            k <= js@.len(),
            forall|q: int| 0 <= q < k ==> (#[trigger] js@[q]).0 != p.0 || js@[q].1 != p.1,
        decreases js@.len() - k,
    {
        if js[k].0 == p.0 && js[k].1 == p.1 {
            assert(js@[k as int].0 == p.0 && js@[k as int].1 == p.1);
            return true;
        }
        k += 1;
    }
    false
}

fn draw_segment(grid: &mut Grid, seg: Segment, js: &Vec<(usize, usize)>)
    requires
        segment_end(seg) < usize::MAX,
    ensures
        final(grid)@ == paint(old(grid)@, segment_rule(seg, js@, segment_end(seg) + 1)),
{
    let ghost g0 = grid@;
    match seg {
        Segment::Horizontal { row, start_col, end_col } => {
            let mut col = start_col;
            proof {
                lemma_paint_id(g0, segment_rule(seg, js@, col as int));
            }
            while col <= end_col
                invariant
                    seg == (Segment::Horizontal { row, start_col, end_col }),
                    start_col <= col,
                    col <= end_col + 1 || col == start_col,
                    end_col < usize::MAX,
                    grid@ == paint(g0, segment_rule(seg, js@, col as int)),
                decreases end_col + 1 - col,
            {
                let on_junction = contains_point(js, (row, col));
                let cur = grid.get(row, col);
                let mut draw = false;
                if !on_junction {
                    match cur {
                        Some(c) => {
                            if c == ' ' || is_connection_line_char(c) {
                                draw = true;
                            }
                        },
                        None => {},
                    }
                }
                if draw {
                    proof {
                        lemma_set_paint(g0, segment_rule(seg, js@, col as int), segment_rule(seg, js@, col + 1), row as int, col as int, '─');
                    }
                    grid.set(row, col, '─');
                } else {
                    proof {
                        lemma_paint_same(g0, segment_rule(seg, js@, col as int), segment_rule(seg, js@, col + 1));
                    }
                }
                col += 1;
            }
            proof {
                lemma_paint_same(g0, segment_rule(seg, js@, col as int), segment_rule(seg, js@, end_col + 1));
            }
        },
        Segment::Vertical { col, start_row, end_row } => {
            let mut row = start_row;
            proof {
                lemma_paint_id(g0, segment_rule(seg, js@, row as int));
            }
            while row <= end_row
                invariant
                    seg == (Segment::Vertical { col, start_row, end_row }),
                    start_row <= row,
                    row <= end_row + 1 || row == start_row,
                    end_row < usize::MAX,
                    grid@ == paint(g0, segment_rule(seg, js@, row as int)),
                decreases end_row + 1 - row,
            {
                let on_junction = contains_point(js, (row, col));
                let cur = grid.get(row, col);
                let mut draw = false;
                if !on_junction {
                    match cur {
                        Some(c) => {
                            if c == ' ' || is_connection_line_char(c) {
                                draw = true;
                            }
                        },
                        None => {},
                    }
                }
                if draw {
                    proof {
                        lemma_set_paint(g0, segment_rule(seg, js@, row as int), segment_rule(seg, js@, row + 1), row as int, col as int, '│');
                    }
                    grid.set(row, col, '│');
                } else {
                    proof {
                        lemma_paint_same(g0, segment_rule(seg, js@, row as int), segment_rule(seg, js@, row + 1));
                    }
                }
                row += 1;
            }
            proof {
                lemma_paint_same(g0, segment_rule(seg, js@, row as int), segment_rule(seg, js@, end_row + 1));
            }
        },
    }
}

/// Classify how the segments meet at (row, col) and pick the elbow.
fn elbow_at(segs: &Vec<Segment>, row: usize, col: usize) -> (e: Option<char>)
    ensures
        e == elbow_char(segs@, row as int, col as int),
{
    let mut horizontal_from_left = false;
    let mut horizontal_from_right = false;
    let mut vertical_from_above = false;
    let mut vertical_from_below = false;
    let mut k: usize = 0;
    while k < segs.len()
        invariant
            k <= segs@.len(),
            (horizontal_from_left, horizontal_from_right, vertical_from_above, vertical_from_below)
                == elbow_flags(segs@.take(k as int), row as int, col as int),
        decreases segs@.len() - k,
    {
        proof {
            assert(segs@.take(k + 1).drop_last() =~= segs@.take(k as int));
            assert(segs@.take(k + 1).last() == segs@[k as int]);
        }
        match segs[k] {
            Segment::Horizontal { row: seg_row, start_col, end_col } => {
                if seg_row == row && start_col <= col && col <= end_col {
                    if col == start_col {
                        horizontal_from_right = true;
                    } else if col == end_col {
                        horizontal_from_left = true;
                    }
                }
            },
            Segment::Vertical { col: seg_col, start_row, end_row } => {
                if seg_col == col && start_row <= row && row <= end_row {
                    if row == start_row {
                        vertical_from_above = true;
                    } else if row == end_row {
                        vertical_from_below = true;
                    }
                }
            },
        }
        k += 1;
    }
    proof {
        assert(segs@.take(k as int) =~= segs@);
    }
    if horizontal_from_left && !horizontal_from_right && vertical_from_above && !vertical_from_below {
        Some('┌')
    } else if !horizontal_from_left && horizontal_from_right && vertical_from_above && !vertical_from_below {
        Some('┐')
    } else if horizontal_from_left && !horizontal_from_right && !vertical_from_above && vertical_from_below {
        Some('└')
    } else if !horizontal_from_left && horizontal_from_right && !vertical_from_above && vertical_from_below {
        Some('┘')
    } else {
        None
    }
}

/// Draw elbow characters at segment junctions.
fn draw_elbows_at_points(grid: &mut Grid, conn: &ConnectionLine, junction_points: &Vec<(usize, usize)>)
    ensures
        final(grid)@ == paint(old(grid)@, elbow_rule(conn@.segments, junction_points@)),
{
    let ghost g0 = grid@;
    let ghost segs = conn@.segments;
    let mut k: usize = 0;
    proof {
        lemma_paint_id(g0, elbow_rule(segs, junction_points@.take(0)));
    }
    while k < junction_points.len()
        invariant
            k <= junction_points@.len(),
            segs == conn@.segments,
            grid@ == paint(g0, elbow_rule(segs, junction_points@.take(k as int))),
        decreases junction_points@.len() - k,
    {
        let (row, col) = junction_points[k];
        let ghost pre = junction_points@.take(k as int);
        let ghost post = junction_points@.take(k + 1);
        proof {
            assert(post =~= pre.push((row, col)));
        }
        let e = elbow_at(&conn.segments, row, col);
        let cur = grid.get(row, col);
        match e {
            Some(ch) => {
                if cur == Some(' ') {
                    proof {
                        assert forall|r: int, c: int| 0 <= r < g0.len() && 0 <= c < g0[r].len() implies #[trigger] elbow_rule(segs, post)(r, c, g0[r][c])
                            == if r == row && c == col { ch } else { elbow_rule(segs, pre)(r, c, g0[r][c]) } by {
                            lemma_has_point_push(pre, (row, col), r, c);
                        }
                        lemma_set_paint(g0, elbow_rule(segs, pre), elbow_rule(segs, post), row as int, col as int, ch);
                    }
                    grid.set(row, col, ch);
                } else {
                    proof {
                        assert forall|r: int, c: int| 0 <= r < g0.len() && 0 <= c < g0[r].len() implies #[trigger] elbow_rule(segs, pre)(r, c, g0[r][c])
                            == elbow_rule(segs, post)(r, c, g0[r][c]) by {
                            lemma_has_point_push(pre, (row, col), r, c);
                        }
                        lemma_paint_same(g0, elbow_rule(segs, pre), elbow_rule(segs, post));
                    }
                }
            },
            None => {
                proof {
                    assert forall|r: int, c: int| 0 <= r < g0.len() && 0 <= c < g0[r].len() implies #[trigger] elbow_rule(segs, pre)(r, c, g0[r][c])
                        == elbow_rule(segs, post)(r, c, g0[r][c]) by {
                        lemma_has_point_push(pre, (row, col), r, c);
                    }
                    lemma_paint_same(g0, elbow_rule(segs, pre), elbow_rule(segs, post));
                }
            },
        }
        k += 1;
    }
    proof {
        assert(junction_points@.take(k as int) =~= junction_points@);
    }
}

proof fn lemma_has_point_push(s: Seq<(usize, usize)>, x: (usize, usize), r: int, c: int)
    ensures
        has_point(s.push(x), r, c) <==> has_point(s, r, c) || (x.0 == r && x.1 == c),
{
    if has_point(s.push(x), r, c) && !(x.0 == r && x.1 == c) {
        let k = choose|k: int| 0 <= k < s.push(x).len() && (#[trigger] s.push(x)[k]).0 == r && s.push(x)[k].1 == c;
        assert(s[k] == s.push(x)[k]);
    }
    if has_point(s, r, c) {
        let k = choose|k: int| 0 <= k < s.len() && (#[trigger] s[k]).0 == r && s[k].1 == c;
        assert(s.push(x)[k] == s[k]);
    }
    if x.0 == r && x.1 == c {
        assert(s.push(x)[s.len() as int] == x);
    }
}

/// Draw a connection line on the grid: each segment in turn with `─` or `│`
/// over blank or line cells (junctions left out), then an elbow at each
/// junction that is still blank.
fn draw_connection_line(grid: &mut Grid, conn: &ConnectionLine)
    requires
        segments_small(conn@.segments),
    ensures
        final(grid)@ == draw_connection_spec(old(grid)@, conn@),
{
    let ghost g0 = grid@;
    let ghost segs = conn@.segments;
    let junction_points = junction_points(&conn.segments);
    let mut k: usize = 0;
    while k < conn.segments.len()
        invariant
            k <= segs.len(),
            segs == conn@.segments,
            segments_small(segs),
            junction_points@ == junctions(segs),
            grid@ == segments_paint(g0, segs, junction_points@, k as int),
        decreases segs.len() - k,
    {
        proof {
            assert(segment_end(segs[k as int]) < usize::MAX);
        }
        draw_segment(grid, conn.segments[k], &junction_points);
        k += 1;
    }
    draw_elbows_at_points(grid, conn, &junction_points);
}

// ---------------------------------------------------------------------------
// Labels
// ---------------------------------------------------------------------------

/// Number of leading `"` characters.
pub open spec fn lead_quotes(s: Seq<char>) -> nat
    decreases s.len(),
{
    if s.len() > 0 && s[0] == '"' {
        1 + lead_quotes(s.drop_first())
    } else {
        0
    }
}

/// Number of trailing `"` characters.
pub open spec fn trail_quotes(s: Seq<char>) -> nat
    decreases s.len(),
{
    if s.len() > 0 && s.last() == '"' {
        1 + trail_quotes(s.drop_last())
    } else {
        0
    }
}

/// The text with surrounding `"` characters removed (`trim_matches('"')`).
pub open spec fn strip_quotes(s: Seq<char>) -> Seq<char> {
    let t = s.skip(lead_quotes(s) as int);
    t.take(t.len() - trail_quotes(t))
}

/// The text drawn for a label: its content without surrounding quotes,
/// padded with one space on each side.
pub open spec fn label_text(content: Seq<char>) -> Seq<char> {
    seq![' '] + strip_quotes(content) + seq![' ']
}

proof fn lemma_quotes_bound(s: Seq<char>)
    ensures
        lead_quotes(s) <= s.len(),
        trail_quotes(s) <= s.len(),
    decreases s.len(),
{
    if s.len() > 0 {
        lemma_quotes_bound(s.drop_first());
        lemma_quotes_bound(s.drop_last());
    }
}

/// Number of leading quotes, computed.
fn count_lead_quotes(v: &Vec<char>) -> (n: usize)
    ensures
        n == lead_quotes(v@),
        n <= v@.len(),
{
    let mut i: usize = 0;
    assert(v@.skip(0) =~= v@);
    while i < v.len() && v[i] == '"'
        invariant
            i <= v@.len(),
            lead_quotes(v@) == i + lead_quotes(v@.skip(i as int)),
        decreases v@.len() - i,
    {
        proof {
            assert(v@.skip(i as int).drop_first() =~= v@.skip(i + 1));
        }
        i += 1;
    }
    proof {
        lemma_quotes_bound(v@);
    }
    i
}

/// Number of trailing quotes, computed.
fn count_trail_quotes(v: &Vec<char>) -> (n: usize)
    ensures
        n == trail_quotes(v@),
        n <= v@.len(),
{
    let mut i: usize = 0;
    assert(v@.take(v@.len() as int) =~= v@);
    while i < v.len() && v[v.len() - 1 - i] == '"'
        invariant
            i <= v@.len(),
            trail_quotes(v@) == i + trail_quotes(v@.take(v@.len() - i)),
        decreases v@.len() - i,
    {
        proof {
            assert(v@.take(v@.len() - i).drop_last() =~= v@.take(v@.len() - (i + 1)));
        }
        i += 1;
    }
    proof {
        lemma_quotes_bound(v@);
    }
    i
}

/// The padded label text, computed.
fn label_text_exec(content: &Vec<char>) -> (t: Vec<char>)
    ensures
        t@ == label_text(content@),
{
    let a = count_lead_quotes(content);
    let rest = slice_vec(content, a, content.len());
    proof {
        assert(rest@ =~= content@.skip(a as int));
    }
    let b = count_trail_quotes(&rest);
    let core = slice_vec(&rest, 0, rest.len() - b);
    let mut t: Vec<char> = Vec::new();
    t.push(' ');
    let mut i: usize = 0;
    while i < core.len()
        invariant
            i <= core@.len(),
            t@ == seq![' '] + core@.take(i as int),
        decreases core@.len() - i,
    {
        t.push(core[i]);
        i += 1;
        proof {
            assert(t@ =~= seq![' '] + core@.take(i as int));
        }
    }
    t.push(' ');
    proof {
        assert(core@.take(i as int) =~= core@);
        assert(core@ =~= strip_quotes(content@));
        assert(t@ =~= label_text(content@));
    }
    t
}

/// A label's text drawn from (row, col), its first `k` characters.
pub open spec fn label_rule(row: int, col: int, text: Seq<char>, k: int) -> spec_fn(int, int, char) -> char {
    |r: int, c: int, o: char| if r == row && col <= c && c - col < k && c - col < text.len() {
        text[c - col]
    } else {
        o
    }
}

/// The grid after drawing the text from (row, col).
pub open spec fn draw_label_at_spec(g: Seq<Seq<char>>, row: int, col: int, text: Seq<char>) -> Seq<Seq<char>> {
    paint(g, label_rule(row, col, text, text.len() as int))
}

/// The first column in `lo..hi` where row `row` holds `↓` or `↑`.
pub open spec fn first_arrow_col(g: Seq<Seq<char>>, row: int, lo: int, hi: int) -> Option<int>
    decreases hi - lo,
{
    if lo >= hi {
        None
    } else if cell(g, row, lo) == Some('↓') || cell(g, row, lo) == Some('↑') {
        Some(lo)
    } else {
        first_arrow_col(g, row, lo + 1, hi)
    }
}

/// `a - b`, but not below 0.
pub open spec fn sat_sub(a: int, b: int) -> int {
    if a >= b {
        a - b
    } else {
        0
    }
}

/// The column a label is drawn from: a label of a vertical arrow (below the
/// first row) is centred under the first `↓` or `↑` found on the row above,
/// from three columns before the label to three after its content (bytes),
/// within the grid's width; any other label stays where it is.
pub open spec fn label_col(g: Seq<Seq<char>>, l: LabelV) -> int {
    match l.attached_to {
        LabelAttachment::VerticalArrow(_) => if l.row > 0 {
            let lo = sat_sub(l.col as int, 3);
            let end = l.col + byte_len(l.content) + 3;
            let hi = if end <= max_row_len(g) { end } else { max_row_len(g) as int };
            match first_arrow_col(g, l.row - 1, lo, hi) {
                Some(c) => sat_sub(c, (label_text(l.content).len() / 2) as int),
                None => l.col as int,
            }
        } else {
            l.col as int
        },
        _ => l.col as int,
    }
}

/// The grid after drawing the label.
pub open spec fn draw_label_spec(g: Seq<Seq<char>>, l: LabelV) -> Seq<Seq<char>> {
    draw_label_at_spec(g, l.row as int, label_col(g, l), label_text(l.content))
}

fn draw_label_at_position(grid: &mut Grid, row: usize, col: usize, text: &Vec<char>)
    requires
        col + text@.len() <= usize::MAX,
    ensures
        final(grid)@ == draw_label_at_spec(old(grid)@, row as int, col as int, text@),
{
    let ghost g0 = grid@;
    let mut i: usize = 0;
    proof {
        lemma_paint_id(g0, label_rule(row as int, col as int, text@, 0));
    }
    while i < text.len()
        invariant
            i <= text@.len(),
            col + text@.len() <= usize::MAX,
            grid@ == paint(g0, label_rule(row as int, col as int, text@, i as int)),
        decreases text@.len() - i,
    {
        proof {
            lemma_set_paint(g0, label_rule(row as int, col as int, text@, i as int), label_rule(row as int, col as int, text@, i + 1), row as int, col + i, text@[i as int]);
        }
        grid.set(row, col + i, text[i]);
        i += 1;
    }
}

/// Draw a label on the grid.
fn draw_label(grid: &mut Grid, label: &Label)
    requires
        label.col <= 32 * MAX_COORD,
        label@.content.len() <= MAX_COORD,
    ensures
        final(grid)@ == draw_label_spec(old(grid)@, label@),
{
    let ghost g0 = grid@;
    let content = chars_of(label.content.as_str());
    let text = label_text_exec(&content);
    proof {
        lemma_quotes_bound(content@);
        lemma_quotes_bound(content@.skip(lead_quotes(content@) as int));
    }
    let mut final_col = label.col;
    match label.attached_to {
        LabelAttachment::VerticalArrow(_) => {
            if label.row > 0 {
                let bytes = byte_len_vec(&content);
                proof {
                    lemma_byte_len_bounds(content@);
                }
                let search_start = if label.col >= 3 { label.col - 3 } else { 0 };
                let end = label.col + bytes + 3;
                let width = grid.width();
                let search_end = if end <= width { end } else { width };
                let mut col = search_start;
                let mut found = false;
                while !found && col < search_end
                    invariant
                        search_start <= col,
                        col <= search_end || col == search_start,
                        label.row > 0,
                        grid@ == g0,
                        !found ==> first_arrow_col(g0, label.row - 1, search_start as int, search_end as int)
                            == first_arrow_col(g0, label.row - 1, col as int, search_end as int),
                        found ==> first_arrow_col(g0, label.row - 1, search_start as int, search_end as int)
                            == Some(col as int),
                    decreases search_end - col + (if found { 0int } else { 1int }),
                {
                    let ch = grid.get(label.row - 1, col);
                    if ch == Some('↓') || ch == Some('↑') {
                        found = true;
                    } else {
                        col += 1;
                    }
                }
                if found {
                    let half = text.len() / 2;
                    final_col = if col >= half { col - half } else { 0 };
                }
            }
        },
        _ => {},
    }
    proof {
        assert(final_col as int == label_col(g0, label@));
    }
    draw_label_at_position(grid, label.row, final_col, &text);
}

// ---------------------------------------------------------------------------
// Bounds
// ---------------------------------------------------------------------------

/// Componentwise maximum.
pub open spec fn bmax(a: (int, int), b: (int, int)) -> (int, int) {
    (if a.0 >= b.0 { a.0 } else { b.0 }, if a.1 >= b.1 { a.1 } else { b.1 })
}

/// `acc` raised to the extent of each element.
pub open spec fn fold_bounds<A>(s: Seq<A>, f: spec_fn(A) -> (int, int), acc: (int, int)) -> (int, int)
    decreases s.len(),
{
    if s.len() == 0 {
        acc
    } else {
        bmax(fold_bounds(s.drop_last(), f, acc), f(s.last()))
    }
}

/// The last cell of a segment.
pub open spec fn segment_extent(seg: Segment) -> (int, int) {
    match seg {
        Segment::Horizontal { row, end_col, .. } => (row as int, end_col as int),
        Segment::Vertical { col, end_row, .. } => (end_row as int, col as int),
    }
}

/// `acc` raised to the extent of every segment of every connection line.
pub open spec fn fold_conns(conns: Seq<ConnectionLineV>, acc: (int, int)) -> (int, int)
    decreases conns.len(),
{
    if conns.len() == 0 {
        acc
    } else {
        fold_bounds(conns.last().segments, |sg: Segment| segment_extent(sg), fold_conns(conns.drop_last(), acc))
    }
}

/// The last row and column any primitive reaches (labels by their content's
/// bytes).
pub open spec fn bounds_spec(inv: InventoryV) -> (int, int) {
    let b1 = fold_bounds(inv.boxes, |b: BoxV| (b.bottom_right.0 as int, b.bottom_right.1 as int), (0, 0));
    let b2 = fold_bounds(inv.text_rows, |t: TextRowV| (t.row as int, t.end_col as int), b1);
    let b3 = fold_bounds(inv.horizontal_arrows, |a: HorizontalArrow| (a.row as int, a.end_col as int), b2);
    let b4 = fold_bounds(inv.vertical_arrows, |a: VerticalArrow| (a.end_row as int, a.col as int), b3);
    let b5 = fold_conns(inv.connection_lines, b4);
    fold_bounds(inv.labels, |l: LabelV| (l.row as int, l.col + sat_sub(byte_len(l.content) as int, 1)), b5)
}

/// Every coordinate and every text of the inventory is small.
pub open spec fn render_ok(inv: InventoryV) -> bool {
    &&& forall|k: int| 0 <= k < inv.boxes.len() ==> (#[trigger] inv.boxes[k]).bottom_right.0 <= 32 * MAX_COORD
        && inv.boxes[k].bottom_right.1 <= 32 * MAX_COORD
    &&& forall|k: int| 0 <= k < inv.text_rows.len() ==> (#[trigger] inv.text_rows[k]).row <= 32 * MAX_COORD
        && inv.text_rows[k].start_col <= 32 * MAX_COORD && inv.text_rows[k].end_col <= 32 * MAX_COORD
        && inv.text_rows[k].content.len() <= MAX_COORD
    &&& forall|k: int| 0 <= k < inv.horizontal_arrows.len() ==> (#[trigger] inv.horizontal_arrows[k]).row
        <= 32 * MAX_COORD && inv.horizontal_arrows[k].end_col <= 32 * MAX_COORD
    &&& forall|k: int| 0 <= k < inv.vertical_arrows.len() ==> (#[trigger] inv.vertical_arrows[k]).end_row
        <= 32 * MAX_COORD && inv.vertical_arrows[k].col <= 32 * MAX_COORD
    &&& forall|k: int, q: int|
        0 <= k < inv.connection_lines.len() && 0 <= q < inv.connection_lines[k].segments.len() ==> {
            let e = segment_extent(#[trigger] inv.connection_lines[k].segments[q]);
            e.0 <= 32 * MAX_COORD && e.1 <= 32 * MAX_COORD
        }
    &&& forall|k: int| 0 <= k < inv.labels.len() ==> (#[trigger] inv.labels[k]).row <= 32 * MAX_COORD
        && inv.labels[k].col <= 32 * MAX_COORD && inv.labels[k].content.len() <= MAX_COORD
}

proof fn lemma_fold_bounds_step<A>(s: Seq<A>, f: spec_fn(A) -> (int, int), acc: (int, int), i: int)
    requires
        0 <= i < s.len(),
    ensures
        fold_bounds(s.take(i + 1), f, acc) == bmax(fold_bounds(s.take(i), f, acc), f(s[i])),
{
    assert(s.take(i + 1).drop_last() =~= s.take(i));
    assert(s.take(i + 1).last() == s[i]);
}

/// Calculate the maximum row and column needed for all primitives.
fn calculate_bounds(inventory: &PrimitiveInventory) -> (b: (usize, usize))
    requires
        render_ok(inventory@),
    ensures
        (b.0 as int, b.1 as int) == bounds_spec(inventory@),
        b.0 <= 36 * MAX_COORD,
        b.1 <= 36 * MAX_COORD,
{
    let ghost inv = inventory@;
    let mut max_row: usize = 0;
    let mut max_col: usize = 0;
    let ghost fb = |b: BoxV| (b.bottom_right.0 as int, b.bottom_right.1 as int);
    let mut i: usize = 0;
    while i < inventory.boxes.len()
        invariant
            i <= inv.boxes.len(),
            inv == inventory@,
            render_ok(inv),
            fb == (|b: BoxV| (b.bottom_right.0 as int, b.bottom_right.1 as int)),
            (max_row as int, max_col as int) == fold_bounds(inv.boxes.take(i as int), fb, (0, 0)),
            max_row <= 32 * MAX_COORD,
            max_col <= 32 * MAX_COORD,
        decreases inv.boxes.len() - i,
    {
        let b = &inventory.boxes[i];
        proof {
            lemma_fold_bounds_step(inv.boxes, fb, (0, 0), i as int);
            assert(inv.boxes[i as int] == b@);
        }
        if b.bottom_right.0 > max_row { max_row = b.bottom_right.0; }
        if b.bottom_right.1 > max_col { max_col = b.bottom_right.1; }
        i += 1;
    }
    proof { assert(inv.boxes.take(i as int) =~= inv.boxes); }
    let ghost b1 = (max_row as int, max_col as int);
    let ghost ft = |t: TextRowV| (t.row as int, t.end_col as int);
    let mut i: usize = 0;
    while i < inventory.text_rows.len()
        invariant
            i <= inv.text_rows.len(),
            inv == inventory@,
            render_ok(inv),
            ft == (|t: TextRowV| (t.row as int, t.end_col as int)),
            (max_row as int, max_col as int) == fold_bounds(inv.text_rows.take(i as int), ft, b1),
            max_row <= 32 * MAX_COORD,
            max_col <= 32 * MAX_COORD,
        decreases inv.text_rows.len() - i,
    {
        let t = &inventory.text_rows[i];
        proof {
            lemma_fold_bounds_step(inv.text_rows, ft, b1, i as int);
            assert(inv.text_rows[i as int] == t@);
        }
        if t.row > max_row { max_row = t.row; }
        if t.end_col > max_col { max_col = t.end_col; }
        i += 1;
    }
    proof { assert(inv.text_rows.take(i as int) =~= inv.text_rows); }
    let ghost b2 = (max_row as int, max_col as int);
    let ghost fh = |a: HorizontalArrow| (a.row as int, a.end_col as int);
    let mut i: usize = 0;
    while i < inventory.horizontal_arrows.len()
        invariant
            i <= inv.horizontal_arrows.len(),
            inv == inventory@,
            render_ok(inv),
            fh == (|a: HorizontalArrow| (a.row as int, a.end_col as int)),
            (max_row as int, max_col as int) == fold_bounds(inv.horizontal_arrows.take(i as int), fh, b2),
            max_row <= 32 * MAX_COORD,
            max_col <= 32 * MAX_COORD,
        decreases inv.horizontal_arrows.len() - i,
    {
        let a = inventory.horizontal_arrows[i];
        proof {
            lemma_fold_bounds_step(inv.horizontal_arrows, fh, b2, i as int);
        }
        if a.row > max_row { max_row = a.row; }
        if a.end_col > max_col { max_col = a.end_col; }
        i += 1;
    }
    proof { assert(inv.horizontal_arrows.take(i as int) =~= inv.horizontal_arrows); }
    let ghost b3 = (max_row as int, max_col as int);
    let ghost fv = |a: VerticalArrow| (a.end_row as int, a.col as int);
    let mut i: usize = 0;
    while i < inventory.vertical_arrows.len()
        invariant
            i <= inv.vertical_arrows.len(),
            inv == inventory@,
            render_ok(inv),
            fv == (|a: VerticalArrow| (a.end_row as int, a.col as int)),
            (max_row as int, max_col as int) == fold_bounds(inv.vertical_arrows.take(i as int), fv, b3),
            max_row <= 32 * MAX_COORD,
            max_col <= 32 * MAX_COORD,
        decreases inv.vertical_arrows.len() - i,
    {
        let a = inventory.vertical_arrows[i];
        proof {
            lemma_fold_bounds_step(inv.vertical_arrows, fv, b3, i as int);
        }
        if a.end_row > max_row { max_row = a.end_row; }
        if a.col > max_col { max_col = a.col; }
        i += 1;
    }
    proof { assert(inv.vertical_arrows.take(i as int) =~= inv.vertical_arrows); }
    let ghost b4 = (max_row as int, max_col as int);
    let ghost fs = |sg: Segment| segment_extent(sg);
    let mut i: usize = 0;
    while i < inventory.connection_lines.len()
        invariant
            i <= inv.connection_lines.len(),
            inv == inventory@,
            render_ok(inv),
            fs == (|sg: Segment| segment_extent(sg)),
            (max_row as int, max_col as int) == fold_conns(inv.connection_lines.take(i as int), b4),
            max_row <= 32 * MAX_COORD,
            max_col <= 32 * MAX_COORD,
        decreases inv.connection_lines.len() - i,
    {
        let conn = &inventory.connection_lines[i];
        let ghost segs = conn@.segments;
        let ghost start = (max_row as int, max_col as int);
        proof {
            assert(inv.connection_lines[i as int] == conn@);
            assert(inv.connection_lines.take(i + 1).drop_last() =~= inv.connection_lines.take(i as int));
            assert(inv.connection_lines.take(i + 1).last() == conn@);
        }
        let mut q: usize = 0;
        while q < conn.segments.len()
            invariant
                q <= segs.len(),
                segs == conn@.segments,
                inv == inventory@,
                render_ok(inv),
                inv.connection_lines[i as int] == conn@,
                0 <= i < inv.connection_lines.len(),
                fs == (|sg: Segment| segment_extent(sg)),
                (max_row as int, max_col as int) == fold_bounds(segs.take(q as int), fs, start),
                max_row <= 32 * MAX_COORD,
                max_col <= 32 * MAX_COORD,
            decreases segs.len() - q,
        {
            proof {
                lemma_fold_bounds_step(segs, fs, start, q as int);
                assert(segs[q as int] == inv.connection_lines[i as int].segments[q as int]);
            }
            match conn.segments[q] {
                Segment::Horizontal { row, end_col, .. } => {
                    if row > max_row { max_row = row; }
                    if end_col > max_col { max_col = end_col; }
                },
                Segment::Vertical { col, end_row, .. } => {
                    if end_row > max_row { max_row = end_row; }
                    if col > max_col { max_col = col; }
                },
            }
            q += 1;
        }
        proof { assert(segs.take(q as int) =~= segs); }
        i += 1;
    }
    proof { assert(inv.connection_lines.take(i as int) =~= inv.connection_lines); }
    let ghost b5 = (max_row as int, max_col as int);
    let ghost fl = |l: LabelV| (l.row as int, l.col + sat_sub(byte_len(l.content) as int, 1));
    let mut i: usize = 0;
    while i < inventory.labels.len()
        invariant
            i <= inv.labels.len(),
            inv == inventory@,
            render_ok(inv),
            fl == (|l: LabelV| (l.row as int, l.col + sat_sub(byte_len(l.content) as int, 1))),
            (max_row as int, max_col as int) == fold_bounds(inv.labels.take(i as int), fl, b5),
            max_row <= 32 * MAX_COORD,
            max_col <= 36 * MAX_COORD,
        decreases inv.labels.len() - i,
    {
        let l = &inventory.labels[i];
        proof {
            lemma_fold_bounds_step(inv.labels, fl, b5, i as int);
            assert(inv.labels[i as int] == l@);
        }
        let content = chars_of(l.content.as_str());
        let bytes = byte_len_vec(&content);
        proof {
            lemma_byte_len_bounds(content@);
        }
        let label_end_col = l.col + if bytes >= 1 { bytes - 1 } else { 0 };
        if l.row > max_row { max_row = l.row; }
        if label_end_col > max_col { max_col = label_end_col; }
        i += 1;
    }
    proof { assert(inv.labels.take(i as int) =~= inv.labels); }
    (max_row, max_col)
}

// ---------------------------------------------------------------------------
// Rendering
// ---------------------------------------------------------------------------

/// The grid after drawing the first `k` boxes.
pub open spec fn boxes_drawn(g: Seq<Seq<char>>, boxes: Seq<BoxV>, k: int) -> Seq<Seq<char>>
    decreases k,
{
    if k <= 0 {
        g
    } else {
        draw_box_spec(boxes_drawn(g, boxes, k - 1), boxes[k - 1])
    }
}

/// The grid after drawing the first `k` text rows (blank ones are skipped).
pub open spec fn texts_drawn(g: Seq<Seq<char>>, rows: Seq<TextRowV>, k: int) -> Seq<Seq<char>>
    decreases k,
{
    if k <= 0 {
        g
    } else {
        let prev = texts_drawn(g, rows, k - 1);
        if is_blank(rows[k - 1].content) {
            prev
        } else {
            draw_text_row_spec(prev, rows[k - 1])
        }
    }
}

/// The grid after drawing the first `k` horizontal arrows, skipping an
/// arrow whose start or end lies inside a box.
pub open spec fn harrows_drawn(g: Seq<Seq<char>>, arrows: Seq<HorizontalArrow>, boxes: Seq<BoxV>, k: int) -> Seq<Seq<char>>
    decreases k,
{
    if k <= 0 {
        g
    } else {
        let prev = harrows_drawn(g, arrows, boxes, k - 1);
        let a = arrows[k - 1];
        if inside_any_box(boxes, a.row as int, a.start_col as int) || inside_any_box(boxes, a.row as int, a.end_col as int) {
            prev
        } else {
            draw_harrow_spec(prev, a)
        }
    }
}

/// The grid after drawing the first `k` vertical arrows, skipping an arrow
/// whose start or end lies inside a box.
pub open spec fn varrows_drawn(g: Seq<Seq<char>>, arrows: Seq<VerticalArrow>, boxes: Seq<BoxV>, k: int) -> Seq<Seq<char>>
    decreases k,
{
    if k <= 0 {
        g
    } else {
        let prev = varrows_drawn(g, arrows, boxes, k - 1);
        let a = arrows[k - 1];
        if inside_any_box(boxes, a.start_row as int, a.col as int) || inside_any_box(boxes, a.end_row as int, a.col as int) {
            prev
        } else {
            draw_varrow_spec(prev, a)
        }
    }
}

/// The grid after drawing the first `k` connection lines.
pub open spec fn conns_drawn(g: Seq<Seq<char>>, conns: Seq<ConnectionLineV>, k: int) -> Seq<Seq<char>>
    decreases k,
{
    if k <= 0 {
        g
    } else {
        draw_connection_spec(conns_drawn(g, conns, k - 1), conns[k - 1])
    }
}

/// The grid after drawing the first `k` labels.
pub open spec fn labels_drawn(g: Seq<Seq<char>>, labels: Seq<LabelV>, k: int) -> Seq<Seq<char>>
    decreases k,
{
    if k <= 0 {
        g
    } else {
        draw_label_spec(labels_drawn(g, labels, k - 1), labels[k - 1])
    }
}

/// Every primitive of the inventory drawn over the grid: boxes, text rows,
/// horizontal then vertical arrows outside box interiors, connection lines,
/// and labels last.
pub open spec fn overlay(g: Seq<Seq<char>>, inv: InventoryV) -> Seq<Seq<char>> {
    let g1 = boxes_drawn(g, inv.boxes, inv.boxes.len() as int);
    let g2 = texts_drawn(g1, inv.text_rows, inv.text_rows.len() as int);
    let g3 = harrows_drawn(g2, inv.horizontal_arrows, inv.boxes, inv.horizontal_arrows.len() as int);
    let g4 = varrows_drawn(g3, inv.vertical_arrows, inv.boxes, inv.vertical_arrows.len() as int);
    let g5 = conns_drawn(g4, inv.connection_lines, inv.connection_lines.len() as int);
    labels_drawn(g5, inv.labels, inv.labels.len() as int)
}

/// A grid of `h` rows of `w` spaces.
pub open spec fn blank_grid(h: int, w: int) -> Seq<Seq<char>> {
    Seq::new(h as nat, |r: int| Seq::new(w as nat, |c: int| ' '))
}

/// The grid `render_diagram` produces.
pub open spec fn render_diagram_spec(inv: InventoryV) -> Seq<Seq<char>> {
    let b = bounds_spec(inv);
    overlay(blank_grid(b.0 + 1, b.1 + 1), inv)
}

/// Arrowheads that are cleared before arrows are drawn again.
pub open spec fn is_arrowhead(ch: char) -> bool {
    ch == '↓' || ch == '↑' || ch == '→' || ch == '←' || ch == '⇓' || ch == '⇑' || ch == '⇒' || ch
        == '⇐' || ch == '⟶' || ch == '⟹'
}

/// The cell (r, c) lies on the border of the box.
pub open spec fn on_box_border(b: BoxV, r: int, c: int) -> bool {
    let t = b.top_left.0 as int;
    let l = b.top_left.1 as int;
    let bo = b.bottom_right.0 as int;
    let ri = b.bottom_right.1 as int;
    ||| ((r == t || r == bo) && l <= c <= ri)
    ||| ((c == l || c == ri) && t <= r <= bo)
}

/// The cell (r, c) lies on the border of some box.
pub open spec fn on_any_border(boxes: Seq<BoxV>, r: int, c: int) -> bool {
    exists|i: int| 0 <= i < boxes.len() && on_box_border(#[trigger] boxes[i], r, c)
}

/// The cell (r, c) lies on the border of the box, or one column either
/// side of its right border (where the detector accepts a right border
/// that is off by one).
pub open spec fn near_box_border(b: BoxV, r: int, c: int) -> bool {
    let t = b.top_left.0 as int;
    let l = b.top_left.1 as int;
    let bo = b.bottom_right.0 as int;
    let ri = b.bottom_right.1 as int;
    ||| ((r == t || r == bo) && l <= c <= ri)
    ||| ((c == l || (ri - 1 <= c <= ri + 1)) && t <= r <= bo)
}

/// The cell (r, c) lies near the border of some box.
pub open spec fn near_any_border(boxes: Seq<BoxV>, r: int, c: int) -> bool {
    exists|i: int| 0 <= i < boxes.len() && near_box_border(#[trigger] boxes[i], r, c)
}

/// Plain border characters: lines and corners of every box style.
pub open spec fn is_plain_border(ch: char) -> bool {
    ||| ch == '─' || ch == '│' || ch == '┌' || ch == '┐' || ch == '└' || ch == '┘'
    ||| ch == '═' || ch == '║' || ch == '╔' || ch == '╗' || ch == '╚' || ch == '╝'
    ||| ch == '╭' || ch == '╮' || ch == '╰' || ch == '╯'
}

/// Marks on a border that a redrawn box keeps: junctions where lines meet
/// it, and solid arrowheads.
pub open spec fn is_border_mark(ch: char) -> bool {
    ||| ch == '┬' || ch == '┴' || ch == '├' || ch == '┤' || ch == '┼'
    ||| ch == '╦' || ch == '╩' || ch == '╠' || ch == '╣' || ch == '╬'
    ||| ch == '▼' || ch == '▲'
}

/// The cell (r, c) lies on one of the arrows of the inventory.
pub open spec fn on_any_arrow(inv: InventoryV, r: int, c: int) -> bool {
    ||| exists|i: int| 0 <= i < inv.horizontal_arrows.len() && {
        let a = #[trigger] inv.horizontal_arrows[i];
        a.row == r && a.start_col <= c <= a.end_col
    }
    ||| exists|i: int| 0 <= i < inv.vertical_arrows.len() && {
        let a = #[trigger] inv.vertical_arrows[i];
        a.col == c && a.start_row <= r <= a.end_row
    }
}

/// The given grid cut or padded with spaces to `h` rows of `w` columns,
/// with the arrowheads of the arrows as they were detected cleared (the
/// arrows are drawn again where normalization put them) and the plain
/// border characters on or next to the borders of the boxes as they were
/// detected cleared (the boxes are drawn again likewise); every other cell
/// passes through.
pub open spec fn base_grid(orig: Seq<Seq<char>>, old_inv: InventoryV, h: int, w: int) -> Seq<Seq<char>> {
    Seq::new(h as nat, |r: int| Seq::new(w as nat, |c: int| match cell(orig, r, c) {
        Some(ch) => if (is_arrowhead(ch) && on_any_arrow(old_inv, r, c)) || (is_plain_border(ch) && near_any_border(
            old_inv.boxes,
            r,
            c,
        )) {
            ' '
        } else {
            ch
        },
        None => ' ',
    }))
}

/// The grid with the border marks of `base` put back on the borders of
/// the boxes.
pub open spec fn marks_kept(g: Seq<Seq<char>>, base: Seq<Seq<char>>, boxes: Seq<BoxV>) -> Seq<Seq<char>> {
    paint(g, |r: int, c: int, o: char| match cell(base, r, c) {
        Some(m) => if is_border_mark(m) && on_any_border(boxes, r, c) { m } else { o },
        None => o,
    })
}

/// The grid `render_onto_grid` produces: the given grid, widened and deepened
/// to hold every primitive, with the detected arrows' arrowheads and the
/// detected boxes' plain borders cleared, the normalized primitives drawn over it, and the marks
/// on box borders (junctions, solid arrowheads) kept.
pub open spec fn render_onto_spec(orig: Seq<Seq<char>>, old_inv: InventoryV, inv: InventoryV) -> Seq<Seq<char>> {
    let b = bounds_spec(inv);
    let h = sat_sub(orig.len() as int, 1);
    let w = sat_sub(max_row_len(orig) as int, 1);
    let base = base_grid(orig, old_inv, (if b.0 >= h { b.0 } else { h }) + 1, (if b.1 >= w { b.1 } else { w }) + 1);
    marks_kept(overlay(base, inv), base, inv.boxes)
}

fn on_border_exec(boxes: &Vec<DiagramBox>, r: usize, c: usize) -> (b: bool)
    ensures
        b == on_any_border(boxes@.map_values(|x: DiagramBox| x@), r as int, c as int),
{
    let ghost bv = boxes@.map_values(|x: DiagramBox| x@);
    let mut i: usize = 0;
    while i < boxes.len()
        invariant
            i <= boxes@.len(),
            bv == boxes@.map_values(|x: DiagramBox| x@),
            forall|j: int| 0 <= j < i ==> !on_box_border(#[trigger] bv[j], r as int, c as int),
        decreases boxes@.len() - i,
    {
        let b = &boxes[i];
        proof { assert(bv[i as int] == b@); }
        let t = b.top_left.0;
        let l = b.top_left.1;
        let bo = b.bottom_right.0;
        let ri = b.bottom_right.1;
        if ((r == t || r == bo) && l <= c && c <= ri) || ((c == l || c == ri) && t <= r && r <= bo) {
            return true;
        }
        i += 1;
    }
    false
}

fn on_arrow_exec(inv: &PrimitiveInventory, r: usize, c: usize) -> (b: bool)
    ensures
        b == on_any_arrow(inv@, r as int, c as int),
{
    let mut i: usize = 0;
    while i < inv.horizontal_arrows.len()
        invariant
            i <= inv.horizontal_arrows@.len(),
            forall|j: int| 0 <= j < i ==> {
                let a = #[trigger] inv@.horizontal_arrows[j];
                !(a.row == r && a.start_col <= c <= a.end_col)
            },
        decreases inv.horizontal_arrows@.len() - i,
    {
        let a = &inv.horizontal_arrows[i];
        if a.row == r && a.start_col <= c && c <= a.end_col {
            proof { assert(inv@.horizontal_arrows[i as int] == *a); }
            return true;
        }
        i += 1;
    }
    let mut k: usize = 0;
    while k < inv.vertical_arrows.len()
        invariant
            k <= inv.vertical_arrows@.len(),
            forall|j: int| 0 <= j < inv@.horizontal_arrows.len() ==> {
                let a = #[trigger] inv@.horizontal_arrows[j];
                !(a.row == r && a.start_col <= c <= a.end_col)
            },
            forall|j: int| 0 <= j < k ==> {
                let a = #[trigger] inv@.vertical_arrows[j];
                !(a.col == c && a.start_row <= r <= a.end_row)
            },
        decreases inv.vertical_arrows@.len() - k,
    {
        let a = &inv.vertical_arrows[k];
        if a.col == c && a.start_row <= r && r <= a.end_row {
            proof { assert(inv@.vertical_arrows[k as int] == *a); }
            return true;
        }
        k += 1;
    }
    false
}

fn near_border_exec(boxes: &Vec<DiagramBox>, r: usize, c: usize) -> (b: bool)
    ensures
        b == near_any_border(boxes@.map_values(|x: DiagramBox| x@), r as int, c as int),
{
    let ghost bv = boxes@.map_values(|x: DiagramBox| x@);
    let mut i: usize = 0;
    while i < boxes.len()
        invariant
            i <= boxes@.len(),
            bv == boxes@.map_values(|x: DiagramBox| x@),
            forall|j: int| 0 <= j < i ==> !near_box_border(#[trigger] bv[j], r as int, c as int),
        decreases boxes@.len() - i,
    {
        let b = &boxes[i];
        proof { assert(bv[i as int] == b@); }
        let t = b.top_left.0;
        let l = b.top_left.1;
        let bo = b.bottom_right.0;
        let ri = b.bottom_right.1;
        let right_side = c as u128 + 1 >= ri as u128 && c as u128 <= ri as u128 + 1;
        if ((r == t || r == bo) && l <= c && c <= ri) || ((c == l || right_side) && t <= r && r <= bo) {
            return true;
        }
        i += 1;
    }
    false
}

fn plain_border(ch: char) -> (b: bool)
    ensures
        b == is_plain_border(ch),
{
    ch == '─' || ch == '│' || ch == '┌' || ch == '┐' || ch == '└' || ch == '┘' || ch == '═' || ch == '║' || ch
        == '╔' || ch == '╗' || ch == '╚' || ch == '╝' || ch == '╭' || ch == '╮' || ch == '╰' || ch == '╯'
}

fn border_mark(ch: char) -> (b: bool)
    ensures
        b == is_border_mark(ch),
{
    ch == '┬' || ch == '┴' || ch == '├' || ch == '┤' || ch == '┼' || ch == '╦' || ch == '╩' || ch == '╠' || ch
        == '╣' || ch == '╬' || ch == '▼' || ch == '▲'
}

fn copy_rows(rows: &Vec<Vec<char>>) -> (r: Vec<Vec<char>>)
    ensures
        r@.map_values(|x: Vec<char>| x@) == rows@.map_values(|x: Vec<char>| x@),
{
    let mut r: Vec<Vec<char>> = Vec::new();
    let mut i: usize = 0;
    while i < rows.len()
        invariant
            i <= rows@.len(),
            r@.len() == i,
            forall|k: int| 0 <= k < i ==> (#[trigger] r@[k])@ == rows@[k]@,
        decreases rows@.len() - i,
    {
        r.push(slice_vec(&rows[i], 0, rows[i].len()));
        proof { assert(rows@[i as int]@.subrange(0, rows@[i as int]@.len() as int) =~= rows@[i as int]@); }
        i += 1;
    }
    proof { assert(r@.map_values(|x: Vec<char>| x@) =~= rows@.map_values(|x: Vec<char>| x@)); }
    r
}

/// Put the border marks of `base` back on the borders of the boxes.
fn keep_marks(grid: &Grid, base: &Grid, boxes: &Vec<DiagramBox>) -> (r: Grid)
    ensures
        r@ == marks_kept(grid@, base@, boxes@.map_values(|x: DiagramBox| x@)),
{
    let ghost g = grid@;
    let ghost bv = boxes@.map_values(|x: DiagramBox| x@);
    let ghost target = marks_kept(g, base@, bv);
    let h = grid.height();
    let w = grid.width();
    proof {
        crate::grid::lemma_max_row_len(g);
    }
    let mut rows: Vec<Vec<char>> = Vec::new();
    let mut r: usize = 0;
    while r < h
        invariant
            r <= h == g.len(),
            g == grid@,
            w == max_row_len(g),
            bv == boxes@.map_values(|x: DiagramBox| x@),
            target == marks_kept(g, base@, bv),
            forall|k: int| 0 <= k < g.len() ==> (#[trigger] g[k]).len() <= max_row_len(g),
            rows@.len() == r,
            forall|k: int| 0 <= k < r ==> (#[trigger] rows@[k])@ == target[k],
        decreases h - r,
    {
        let mut line: Vec<char> = Vec::new();
        let mut c: usize = 0;
        let mut go = true;
        while go && c < w
            invariant
                c <= w == max_row_len(g),
                r < h == g.len(),
                g == grid@,
                bv == boxes@.map_values(|x: DiagramBox| x@),
                target == marks_kept(g, base@, bv),
                g[r as int].len() <= max_row_len(g),
                go ==> c <= g[r as int].len(),
                !go ==> c == g[r as int].len(),
                line@ == target[r as int].take(c as int),
            decreases w - c + (if go { 1int } else { 0int }),
        {
            match grid.get(r, c) {
                Some(o) => {
                    let ch = match base.get(r, c) {
                        Some(m) => if border_mark(m) && on_border_exec(boxes, r, c) { m } else { o },
                        None => o,
                    };
                    line.push(ch);
                    c += 1;
                    proof {
                        assert(line@ =~= target[r as int].take(c as int));
                    }
                },
                None => {
                    go = false;
                },
            }
        }
        proof {
            assert(target[r as int].take(c as int) =~= target[r as int]);
        }
        rows.push(line);
        r += 1;
    }
    let out = Grid::from_rows(rows);
    proof {
        assert(out@ =~~= target);
    }
    out
}

/// Draw every primitive of the inventory over the grid.
fn draw_all(grid: &mut Grid, inventory: &PrimitiveInventory)
    requires
        render_ok(inventory@),
    ensures
        final(grid)@ == overlay(old(grid)@, inventory@),
{
    let ghost g0 = grid@;
    let ghost inv = inventory@;
    let mut i: usize = 0;
    while i < inventory.boxes.len()
        invariant
            i <= inv.boxes.len(),
            inv == inventory@,
            render_ok(inv),
            grid@ == boxes_drawn(g0, inv.boxes, i as int),
        decreases inv.boxes.len() - i,
    {
        proof { assert(inv.boxes[i as int] == inventory.boxes@[i as int]@); }
        draw_box(grid, &inventory.boxes[i]);
        i += 1;
    }
    let ghost g1 = grid@;
    let mut i: usize = 0;
    while i < inventory.text_rows.len()
        invariant
            i <= inv.text_rows.len(),
            inv == inventory@,
            render_ok(inv),
            grid@ == texts_drawn(g1, inv.text_rows, i as int),
        decreases inv.text_rows.len() - i,
    {
        let row = &inventory.text_rows[i];
        proof { assert(inv.text_rows[i as int] == row@); }
        let content = chars_of(row.content.as_str());
        if !is_blank_vec(&content) {
            draw_text_row(grid, row);
        }
        i += 1;
    }
    let ghost g2 = grid@;
    let mut i: usize = 0;
    while i < inventory.horizontal_arrows.len()
        invariant
            i <= inv.horizontal_arrows.len(),
            inv == inventory@,
            render_ok(inv),
            grid@ == harrows_drawn(g2, inv.horizontal_arrows, inv.boxes, i as int),
        decreases inv.horizontal_arrows.len() - i,
    {
        let arrow = inventory.horizontal_arrows[i];
        if !is_position_inside_any_box(inventory.boxes.as_slice(), arrow.row, arrow.start_col)
            && !is_position_inside_any_box(inventory.boxes.as_slice(), arrow.row, arrow.end_col) {
            draw_horizontal_arrow(grid, &arrow);
        }
        i += 1;
    }
    let ghost g3 = grid@;
    let mut i: usize = 0;
    while i < inventory.vertical_arrows.len()
        invariant
            i <= inv.vertical_arrows.len(),
            inv == inventory@,
            render_ok(inv),
            grid@ == varrows_drawn(g3, inv.vertical_arrows, inv.boxes, i as int),
        decreases inv.vertical_arrows.len() - i,
    {
        let arrow = inventory.vertical_arrows[i];
        if !is_position_inside_any_box(inventory.boxes.as_slice(), arrow.start_row, arrow.col)
            && !is_position_inside_any_box(inventory.boxes.as_slice(), arrow.end_row, arrow.col) {
            draw_vertical_arrow(grid, &arrow);
        }
        i += 1;
    }
    let ghost g4 = grid@;
    let mut i: usize = 0;
    while i < inventory.connection_lines.len()
        invariant
            i <= inv.connection_lines.len(),
            inv == inventory@,
            render_ok(inv),
            grid@ == conns_drawn(g4, inv.connection_lines, i as int),
        decreases inv.connection_lines.len() - i,
    {
        let conn = &inventory.connection_lines[i];
        proof {
            assert(inv.connection_lines[i as int] == conn@);
            assert forall|q: int| 0 <= q < conn@.segments.len() implies segment_end(#[trigger] conn@.segments[q]) < usize::MAX by {
                assert(conn@.segments[q] == inv.connection_lines[i as int].segments[q]);
            }
        }
        draw_connection_line(grid, conn);
        i += 1;
    }
    let ghost g5 = grid@;
    let mut i: usize = 0;
    while i < inventory.labels.len()
        invariant
            i <= inv.labels.len(),
            inv == inventory@,
            render_ok(inv),
            grid@ == labels_drawn(g5, inv.labels, i as int),
        decreases inv.labels.len() - i,
    {
        let label = &inventory.labels[i];
        proof { assert(inv.labels[i as int] == label@); }
        draw_label(grid, label);
        i += 1;
    }
}

/// Render a primitive inventory onto a fresh grid of spaces just large
/// enough for every primitive.
pub fn render_diagram(inventory: &PrimitiveInventory) -> (g: Grid)
    requires
        render_ok(inventory@),
    ensures
        g@ == render_diagram_spec(inventory@),
{
    let (max_row, max_col) = calculate_bounds(inventory);
    let mut rows: Vec<Vec<char>> = Vec::new();
    let mut r: usize = 0;
    while r <= max_row
        invariant
            r <= max_row + 1,
            max_row <= 36 * MAX_COORD,
            max_col <= 36 * MAX_COORD,
            rows@.len() == r,
            forall|k: int| 0 <= k < r ==> (#[trigger] rows@[k])@ == Seq::new((max_col + 1) as nat, |c: int| ' '),
        decreases max_row + 1 - r,
    {
        let mut line: Vec<char> = Vec::new();
        let mut c: usize = 0;
        while c <= max_col
            invariant
                c <= max_col + 1,
                max_col <= 36 * MAX_COORD,
                line@ == Seq::new(c as nat, |k: int| ' '),
            decreases max_col + 1 - c,
        {
            line.push(' ');
            c += 1;
            proof { assert(line@ =~= Seq::new(c as nat, |k: int| ' ')); }
        }
        rows.push(line);
        r += 1;
    }
    let mut grid = Grid::from_rows(rows);
    proof {
        assert(grid@ =~~= blank_grid(max_row + 1, max_col + 1));
    }
    draw_all(&mut grid, inventory);
    grid
}

/// An inventory with nothing in it.
pub open spec fn no_primitives(inv: InventoryV) -> bool {
    &&& inv.boxes.len() == 0
    &&& inv.text_rows.len() == 0
    &&& inv.horizontal_arrows.len() == 0
    &&& inv.vertical_arrows.len() == 0
    &&& inv.connection_lines.len() == 0
    &&& inv.labels.len() == 0
}

/// With nothing to draw, every cell of the given grid passes through,
/// except the arrowheads of the detected arrows and the plain border
/// characters at the detected boxes' borders; rows are padded with spaces
/// to a common width. With nothing detected either, the grid comes back as
/// it was, padded.
pub proof fn law_render_onto_passes_through(orig: Seq<Seq<char>>, old_inv: InventoryV, inv: InventoryV)
    requires
        no_primitives(inv),
    ensures
        render_onto_spec(orig, old_inv, inv).len() == (if orig.len() >= 1 { orig.len() as int } else { 1 }),
        forall|r: int, c: int|
            0 <= r < render_onto_spec(orig, old_inv, inv).len() && 0 <= c < render_onto_spec(orig, old_inv, inv)[r].len()
                ==> (#[trigger] render_onto_spec(orig, old_inv, inv)[r][c]) == match cell(orig, r, c) {
                Some(ch) => if (is_arrowhead(ch) && on_any_arrow(old_inv, r, c)) || (is_plain_border(ch)
                    && near_any_border(old_inv.boxes, r, c)) {
                    ' '
                } else {
                    ch
                },
                None => ' ',
            },
        no_primitives(old_inv) ==> forall|r: int, c: int|
            0 <= r < render_onto_spec(orig, old_inv, inv).len() && 0 <= c < render_onto_spec(orig, old_inv, inv)[r].len()
                ==> (#[trigger] render_onto_spec(orig, old_inv, inv)[r][c]) == match cell(orig, r, c) {
                Some(ch) => ch,
                None => ' ',
            },
{
    let b = bounds_spec(inv);
    assert(b == (0int, 0int));
    let h = sat_sub(orig.len() as int, 1);
    let w = sat_sub(max_row_len(orig) as int, 1);
    let base = base_grid(orig, old_inv, (if b.0 >= h { b.0 } else { h }) + 1, (if b.1 >= w { b.1 } else { w }) + 1);
    assert(overlay(base, inv) == base);
    let out = render_onto_spec(orig, old_inv, inv);
    assert(out == marks_kept(base, base, inv.boxes));
    assert forall|r: int, c: int| 0 <= r < out.len() && 0 <= c < out[r].len() implies #[trigger] out[r][c] == base[r][c] by {
        assert(!on_any_border(inv.boxes, r, c));
    }
}

/// Render primitives onto an existing grid, preserving pass-through content.
///
/// The given grid is padded with spaces (never cut) to hold every primitive;
/// the arrowheads of the arrows as detected (`original_inventory`) are
/// cleared so that those arrows are drawn again at their aligned places,
/// and the plain border characters of the boxes as detected
/// (`original_inventory`) are cleared so that no old border stays beside a
/// moved one. The normalized primitives are then drawn over it, and the
/// junctions and solid arrowheads that stood on box borders are kept.
pub fn render_onto_grid(original: &Grid, original_inventory: &PrimitiveInventory, inventory: &PrimitiveInventory) -> (g: Grid)
    requires
        render_ok(inventory@),
    ensures
        g@ == render_onto_spec(original@, original_inventory@, inventory@),
{
    let (max_row, max_col) = calculate_bounds(inventory);
    let original_height = original.height();
    let original_width = original.width();
    let h1 = if original_height >= 1 { original_height - 1 } else { 0 };
    let w1 = if original_width >= 1 { original_width - 1 } else { 0 };
    let required_height = (if max_row >= h1 { max_row } else { h1 }) + 1;
    let required_width = (if max_col >= w1 { max_col } else { w1 }) + 1;
    let ghost og = original@;
    let ghost ob = original_inventory@.boxes;
    let ghost oi = original_inventory@;
    let ghost target = base_grid(og, oi, required_height as int, required_width as int);
    proof {
        assert(original_inventory.boxes@.map_values(|x: DiagramBox| x@) =~= ob);
    }
    let mut rows: Vec<Vec<char>> = Vec::new();
    let mut r: usize = 0;
    while r < required_height
        invariant
            r <= required_height,
            og == original@,
            ob == original_inventory@.boxes,
            original_inventory.boxes@.map_values(|x: DiagramBox| x@) == ob,
            target == base_grid(og, oi, required_height as int, required_width as int),
            oi == original_inventory@,
            rows@.len() == r,
            forall|k: int| 0 <= k < r ==> (#[trigger] rows@[k])@ == target[k],
        decreases required_height - r,
    {
        let mut line: Vec<char> = Vec::new();
        let mut c: usize = 0;
        while c < required_width
            invariant
                c <= required_width,
                og == original@,
                ob == original_inventory@.boxes,
                original_inventory.boxes@.map_values(|x: DiagramBox| x@) == ob,
                target == base_grid(og, oi, required_height as int, required_width as int),
            oi == original_inventory@,
                r < required_height,
                line@ == target[r as int].take(c as int),
            decreases required_width - c,
        {
            let ch = match original.get(r, c) {
                Some(x) => {
                    if (x == '↓' || x == '↑' || x == '→' || x == '←' || x == '⇓' || x == '⇑' || x == '⇒'
                        || x == '⇐' || x == '⟶' || x == '⟹') && on_arrow_exec(original_inventory, r, c) {
                        ' '
                    } else if plain_border(x) && near_border_exec(&original_inventory.boxes, r, c) {
                        ' '
                    } else {
                        x
                    }
                },
                None => ' ',
            };
            line.push(ch);
            c += 1;
            proof {
                assert(line@ =~= target[r as int].take(c as int));
            }
        }
        proof {
            assert(target[r as int].take(c as int) =~= target[r as int]);
        }
        rows.push(line);
        r += 1;
    }
    let rows2 = copy_rows(&rows);
    let mut grid = Grid::from_rows(rows);
    let base = Grid::from_rows(rows2);
    proof {
        assert(grid@ =~~= target);
        assert(base@ =~~= target);
    }
    draw_all(&mut grid, inventory);
    proof {
        assert(inventory.boxes@.map_values(|x: DiagramBox| x@) =~= inventory@.boxes);
    }
    keep_marks(&grid, &base, &inventory.boxes)
}

} // verus!
