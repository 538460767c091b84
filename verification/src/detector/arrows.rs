//! Arrow detection functionality.

use vstd::prelude::*;
use crate::grid::{cell, max_row_len, Grid};
use crate::primitives::{arrow_type_of, ArrowType, HorizontalArrow, VerticalArrow};

verus! {

/// Vertical arrow or vertical line character.
pub open spec fn is_vertical_arrow(ch: char) -> bool {
    ch == '↓' || ch == '↑' || ch == '⇓' || ch == '⇑' || ch == '│' || ch == '┃'
}

/// Horizontal arrow or horizontal line character.
pub open spec fn is_horizontal_arrow(ch: char) -> bool {
    ch == '→' || ch == '←' || ch == '⇒' || ch == '⇐' || ch == '⟶' || ch == '⟹' || ch == '─'
}

/// Downward arrowhead.
pub open spec fn is_downward_arrow(ch: char) -> bool {
    ch == '↓' || ch == '⇓'
}

/// Upward arrowhead.
pub open spec fn is_upward_arrow(ch: char) -> bool {
    ch == '↑' || ch == '⇑'
}

/// Rightward arrowhead.
pub open spec fn is_rightward_arrow(ch: char) -> bool {
    ch == '→' || ch == '⇒' || ch == '⟶'
}

/// Leftward arrowhead (the detector counts `⟹` among them).
pub open spec fn is_leftward_arrow(ch: char) -> bool {
    ch == '←' || ch == '⇐' || ch == '⟹'
}

fn vertical_arrow(ch: char) -> (b: bool)
    ensures
        b == is_vertical_arrow(ch),
{
    ch == '↓' || ch == '↑' || ch == '⇓' || ch == '⇑' || ch == '│' || ch == '┃'
}

fn horizontal_arrow(ch: char) -> (b: bool)
    ensures
        b == is_horizontal_arrow(ch),
{
    ch == '→' || ch == '←' || ch == '⇒' || ch == '⇐' || ch == '⟶' || ch == '⟹' || ch == '─'
}

fn downward_arrow(ch: char) -> (b: bool)
    ensures
        b == is_downward_arrow(ch),
{
    ch == '↓' || ch == '⇓'
}

fn upward_arrow(ch: char) -> (b: bool)
    ensures
        b == is_upward_arrow(ch),
{
    ch == '↑' || ch == '⇑'
}

fn rightward_tip(ch: char) -> (b: bool)
    ensures
        b == is_rightward_arrow(ch),
{
    ch == '→' || ch == '⇒' || ch == '⟶'
}

fn arrow_tip(ch: char) -> (b: bool)
    ensures
        b == (is_rightward_arrow(ch) || is_leftward_arrow(ch)),
{
    ch == '→' || ch == '⇒' || ch == '⟶' || ch == '←' || ch == '⇐' || ch == '⟹'
}

/// Length of the run of vertical-arrow characters in column `col` from `row`.
pub open spec fn vrun(g: Seq<Seq<char>>, col: int, row: int) -> nat
    decreases g.len() - row,
{
    if row < g.len() && varrow_at(g, row, col) {
        1 + vrun(g, col, row + 1)
    } else {
        0
    }
}

/// Length of the run of horizontal-arrow characters in row `row` from `col`.
pub open spec fn hrun(g: Seq<Seq<char>>, row: int, col: int) -> nat
    decreases max_row_len(g) - col,
{
    if col < max_row_len(g) && harrow_at(g, row, col) {
        1 + hrun(g, row, col + 1)
    } else {
        0
    }
}

/// Vertical arrows found in column `col` scanning down from `row`: each
/// maximal run of vertical-arrow characters that is longer than one cell or
/// starts with an arrowhead. The direction and arrowhead come from the
/// run's first character.
pub open spec fn varrows_in_col(g: Seq<Seq<char>>, col: int, row: int) -> Seq<VerticalArrow>
    decreases g.len() - row,
    via varrows_in_col_decreases
{
    if row >= g.len() || row < 0 {
        Seq::empty()
    } else {
        match cell(g, row, col) {
            Some(ch) => if is_vertical_arrow(ch) {
                let end = row + vrun(g, col, row) - 1;
                let rest = varrows_in_col(g, col, end + 1);
                if row < end || is_downward_arrow(ch) || is_upward_arrow(ch) {
                    seq![VerticalArrow {
                        col: col as usize,
                        start_row: row as usize,
                        end_row: end as usize,
                        arrow_type: ArrowType::Standard,
                        downward: !is_upward_arrow(ch),
                        arrow_char: if is_downward_arrow(ch) || is_upward_arrow(ch) { Some(ch) } else { None },
                    }] + rest
                } else {
                    rest
                }
            } else {
                varrows_in_col(g, col, row + 1)
            },
            None => varrows_in_col(g, col, row + 1),
        }
    }
}

#[via_fn]
proof fn varrows_in_col_decreases(g: Seq<Seq<char>>, col: int, row: int) {
    if 0 <= row < g.len() {
        if let Some(ch) = cell(g, row, col) {
            if is_vertical_arrow(ch) {
                assert(varrow_at(g, row, col));
                assert(vrun(g, col, row) == 1 + vrun(g, col, row + 1));
                assert(vrun(g, col, row) >= 1);
                let end = row + vrun(g, col, row) - 1;
                lemma_vrun_bound(g, col, row);
            }
        }
    }
}

#[via_fn]
proof fn harrows_in_row_decreases(g: Seq<Seq<char>>, row: int, col: int) {
    if 0 <= col < max_row_len(g) {
        if let Some(ch) = cell(g, row, col) {
            if is_horizontal_arrow(ch) {
                assert(harrow_at(g, row, col));
                assert(hrun(g, row, col) == 1 + hrun(g, row, col + 1));
                lemma_hrun_bound(g, row, col);
            }
        }
    }
}

/// Vertical arrows of columns `col..`, column by column.
pub open spec fn varrows_from_col(g: Seq<Seq<char>>, col: int) -> Seq<VerticalArrow>
    decreases max_row_len(g) - col,
{
    if col >= max_row_len(g) || col < 0 {
        Seq::empty()
    } else {
        varrows_in_col(g, col, 0) + varrows_from_col(g, col + 1)
    }
}

/// The first character of `[from, to]` on `row` that is an arrowhead of
/// some [`ArrowType`].
pub open spec fn first_arrow_char(g: Seq<Seq<char>>, row: int, from: int, to: int) -> Option<char>
    decreases to + 1 - from,
{
    if from > to {
        None
    } else {
        match cell(g, row, from) {
            Some(ch) => if arrow_type_of(ch) is Some {
                Some(ch)
            } else {
                first_arrow_char(g, row, from + 1, to)
            },
            None => first_arrow_char(g, row, from + 1, to),
        }
    }
}

/// The cell (row, c) is a left or right arrowhead.
pub open spec fn tip_at(g: Seq<Seq<char>>, row: int, c: int) -> bool {
    cell(g, row, c) matches Some(ch) && (is_rightward_arrow(ch) || is_leftward_arrow(ch))
}

/// The cell (row, c) is a rightward arrowhead.
pub open spec fn right_tip_at(g: Seq<Seq<char>>, row: int, c: int) -> bool {
    cell(g, row, c) matches Some(ch) && is_rightward_arrow(ch)
}

/// Some cell of `[from, to]` on `row` is a rightward arrowhead: the arrow
/// points right; a run with only leftward heads points left.
pub open spec fn has_right_tip(g: Seq<Seq<char>>, row: int, from: int, to: int) -> bool {
    exists|c: int| from <= c <= to && #[trigger] right_tip_at(g, row, c)
}

/// The cell (row, col) holds a vertical-arrow character.
pub open spec fn varrow_at(g: Seq<Seq<char>>, row: int, col: int) -> bool {
    cell(g, row, col) matches Some(c) && is_vertical_arrow(c)
}

/// The cell (row, col) holds a horizontal-arrow character.
pub open spec fn harrow_at(g: Seq<Seq<char>>, row: int, col: int) -> bool {
    cell(g, row, col) matches Some(c) && is_horizontal_arrow(c)
}

/// Some cell of `[from, to]` on `row` is a left or right arrowhead.
pub open spec fn has_tip(g: Seq<Seq<char>>, row: int, from: int, to: int) -> bool {
    exists|c: int| from <= c <= to && #[trigger] tip_at(g, row, c)
}

/// Horizontal arrows found on row `row` scanning right from `col`: each
/// maximal run of horizontal-arrow characters that holds a left or right
/// arrowhead.
pub open spec fn harrows_in_row(g: Seq<Seq<char>>, row: int, col: int) -> Seq<HorizontalArrow>
    decreases max_row_len(g) - col,
    via harrows_in_row_decreases
{
    if col >= max_row_len(g) || col < 0 {
        Seq::empty()
    } else {
        match cell(g, row, col) {
            Some(ch) => if is_horizontal_arrow(ch) {
                let end = col + hrun(g, row, col) - 1;
                let rest = harrows_in_row(g, row, end + 1);
                if has_tip(g, row, col, end) {
                    seq![HorizontalArrow {
                        row: row as usize,
                        start_col: col as usize,
                        end_col: end as usize,
                        arrow_type: ArrowType::Standard,
                        rightward: has_right_tip(g, row, col, end),
                        arrow_char: first_arrow_char(g, row, col, end),
                    }] + rest
                } else {
                    rest
                }
            } else {
                harrows_in_row(g, row, col + 1)
            },
            None => harrows_in_row(g, row, col + 1),
        }
    }
}

/// Horizontal arrows of rows `row..`, row by row.
pub open spec fn harrows_from_row(g: Seq<Seq<char>>, row: int) -> Seq<HorizontalArrow>
    decreases g.len() - row,
{
    if row >= g.len() || row < 0 {
        Seq::empty()
    } else {
        harrows_in_row(g, row, 0) + harrows_from_row(g, row + 1)
    }
}

/// Vertical arrows of a grid, column by column, top to bottom.
pub open spec fn detect_vertical_arrows_spec(g: Seq<Seq<char>>) -> Seq<VerticalArrow> {
    varrows_from_col(g, 0)
}

/// Horizontal arrows of a grid, row by row, left to right.
pub open spec fn detect_horizontal_arrows_spec(g: Seq<Seq<char>>) -> Seq<HorizontalArrow> {
    harrows_from_row(g, 0)
}

proof fn lemma_vrun_bound(g: Seq<Seq<char>>, col: int, row: int)
    requires
        0 <= row,
    ensures
        row + vrun(g, col, row) <= (if row <= g.len() { g.len() as int } else { row }),
        forall|k: int| row <= k < row + vrun(g, col, row) ==> #[trigger] varrow_at(g, k, col),
        row + vrun(g, col, row) < g.len() ==> !varrow_at(g, row + vrun(g, col, row), col),
    decreases g.len() - row,
{
    if row < g.len() && varrow_at(g, row, col) {
        lemma_vrun_bound(g, col, row + 1);
    }
}

proof fn lemma_hrun_bound(g: Seq<Seq<char>>, row: int, col: int)
    requires
        0 <= col,
    ensures
        col + hrun(g, row, col) <= (if col <= max_row_len(g) { max_row_len(g) as int } else { col }),
        forall|k: int| col <= k < col + hrun(g, row, col) ==> #[trigger] harrow_at(g, row, k),
        col + hrun(g, row, col) < max_row_len(g) ==> !harrow_at(g, row, col + hrun(g, row, col)),
    decreases max_row_len(g) - col,
{
    if col < max_row_len(g) && harrow_at(g, row, col) {
        lemma_hrun_bound(g, row, col + 1);
    }
}

/// The run length from `row` is the scanned extent when the loop stops.
proof fn lemma_vrun_step(g: Seq<Seq<char>>, col: int, row: int, end: int)
    requires
        0 <= row <= end,
        forall|k: int| row <= k < end ==> #[trigger] varrow_at(g, k, col),
        end >= g.len() || !varrow_at(g, end, col),
        end <= g.len() || end == row,
    ensures
        vrun(g, col, row) == end - row,
    decreases end - row,
{
    if row < end {
        lemma_vrun_step(g, col, row + 1, end);
    }
}

proof fn lemma_hrun_step(g: Seq<Seq<char>>, row: int, col: int, end: int)
    requires
        0 <= col <= end,
        forall|k: int| col <= k < end ==> #[trigger] harrow_at(g, row, k),
        end >= max_row_len(g) || !harrow_at(g, row, end),
        end <= max_row_len(g) || end == col,
    ensures
        hrun(g, row, col) == end - col,
    decreases end - col,
{
    if col < end {
        lemma_hrun_step(g, row, col + 1, end);
    }
}

/// Detect vertical arrows in a grid: runs of `↓ ↑ ⇓ ⇑ │ ┃` down each column.
pub fn detect_vertical_arrows(grid: &Grid) -> (r: Vec<VerticalArrow>)
    ensures
        r@ == detect_vertical_arrows_spec(grid@),
{
    let ghost g = grid@;
    let w = grid.width();
    let h = grid.height();
    let mut arrows: Vec<VerticalArrow> = Vec::new();
    let mut col: usize = 0;
    while col < w
        invariant
            g == grid@,
            w == max_row_len(g),
            h == g.len(),
            col <= w,
            detect_vertical_arrows_spec(g) == arrows@ + varrows_from_col(g, col as int),
        decreases w - col,
    {
        let ghost before = arrows@;
        let mut row: usize = 0;
        while row < h
            invariant
                g == grid@,
                h == g.len(),
                col < w,
                w == max_row_len(g),
                row <= h,
                varrows_in_col(g, col as int, 0) == arrows@.subrange(before.len() as int, arrows@.len() as int) + varrows_in_col(g, col as int, row as int),
                arrows@.len() >= before.len(),
                arrows@.subrange(0, before.len() as int) == before,
            decreases h - row,
        {
            let ghost a0 = arrows@;
            match grid.get(row, col) {
                Some(ch) => {
                    if vertical_arrow(ch) {
                        let start_row = row;
                        let mut end_row = row;
                        let mut go = true;
                        while go && end_row < h
                            invariant
                                !go ==> !varrow_at(g, end_row as int, col as int),
                                g == grid@,
                                h == g.len(),
                                start_row <= end_row <= h,
                                forall|k: int| start_row <= k < end_row ==> #[trigger] varrow_at(g, k, col as int),
                                cell(g, start_row as int, col as int) == Some(ch),
                                is_vertical_arrow(ch),
                            decreases h - end_row + (if go { 1int } else { 0int }),
                        {
                            match grid.get(end_row, col) {
                                Some(c) => {
                                    if vertical_arrow(c) {
                                        end_row += 1;
                                    } else {
                                        go = false;
                                    }
                                },
                                None => {
                                    go = false;
                                },
                            }
                        }
                        proof {
                            lemma_vrun_step(g, col as int, start_row as int, end_row as int);
                        }
                        end_row -= 1;
                        if start_row < end_row || downward_arrow(ch) || upward_arrow(ch) {
                            let is_downward = !upward_arrow(ch);
                            let arrow_char = if downward_arrow(ch) || upward_arrow(ch) {
                                Some(ch)
                            } else {
                                None
                            };
                            arrows.push(VerticalArrow {
                                col,
                                start_row,
                                end_row,
                                arrow_type: ArrowType::Standard,
                                downward: is_downward,
                                arrow_char,
                            });
                        }
                        row = end_row + 1;
                    } else {
                        row += 1;
                    }
                },
                None => {
                    row += 1;
                },
            }
            assert(arrows@.subrange(0, before.len() as int) =~= before);
            assert(varrows_in_col(g, col as int, 0) =~= arrows@.subrange(before.len() as int, arrows@.len() as int) + varrows_in_col(g, col as int, row as int));
        }
        assert(arrows@ =~= before + varrows_in_col(g, col as int, 0));
        col += 1;
    }
    arrows
}

/// Detect horizontal arrows in a grid: runs of `→ ← ⇒ ⇐ ⟶ ⟹ ─` along each
/// row that hold an arrowhead.
pub fn detect_horizontal_arrows(grid: &Grid) -> (r: Vec<HorizontalArrow>)
    ensures
        r@ == detect_horizontal_arrows_spec(grid@),
{
    let ghost g = grid@;
    let w = grid.width();
    let h = grid.height();
    let mut arrows: Vec<HorizontalArrow> = Vec::new();
    let mut row: usize = 0;
    while row < h
        invariant
            g == grid@,
            w == max_row_len(g),
            h == g.len(),
            row <= h,
            detect_horizontal_arrows_spec(g) == arrows@ + harrows_from_row(g, row as int),
        decreases h - row,
    {
        let ghost before = arrows@;
        let mut col: usize = 0;
        while col < w
            invariant
                g == grid@,
                h == g.len(),
                row < h,
                w == max_row_len(g),
                col <= w,
                harrows_in_row(g, row as int, 0) == arrows@.subrange(before.len() as int, arrows@.len() as int) + harrows_in_row(g, row as int, col as int),
                arrows@.len() >= before.len(),
                arrows@.subrange(0, before.len() as int) == before,
            decreases w - col,
        {
            match grid.get(row, col) {
                Some(ch) => {
                    if horizontal_arrow(ch) {
                        let start_col = col;
                        let mut end_col = col;
                        let mut go = true;
                        while go && end_col < w
                            invariant
                                !go ==> !harrow_at(g, row as int, end_col as int),
                                g == grid@,
                                w == max_row_len(g),
                                start_col <= end_col <= w,
                                forall|k: int| start_col <= k < end_col ==> #[trigger] harrow_at(g, row as int, k),
                                cell(g, row as int, start_col as int) == Some(ch),
                                is_horizontal_arrow(ch),
                            decreases w - end_col + (if go { 1int } else { 0int }),
                        {
                            match grid.get(row, end_col) {
                                Some(c) => {
                                    if horizontal_arrow(c) || c == '─' {
                                        end_col += 1;
                                    } else {
                                        go = false;
                                    }
                                },
                                None => {
                                    go = false;
                                },
                            }
                        }
                        proof {
                            lemma_hrun_step(g, row as int, start_col as int, end_col as int);
                        }
                        end_col -= 1;
                        let mut has_arrow_tip = false;
                        let mut points_right = false;
                        let mut arrow_char: Option<char> = None;
                        let mut c = start_col;
                        // Scan the run for an arrowhead and for the first
                        // character with an arrow type.
                        while c <= end_col
                            invariant
                                g == grid@,
                                start_col <= c <= end_col + 1,
                                end_col < w,
                                w == max_row_len(g),
                                has_arrow_tip == exists|k: int| start_col <= k < c && #[trigger] tip_at(g, row as int, k),
                                points_right == exists|k: int| start_col <= k < c && #[trigger] right_tip_at(g, row as int, k),
                                arrow_char is None ==> first_arrow_char(g, row as int, start_col as int, end_col as int) == first_arrow_char(g, row as int, c as int, end_col as int),
                                arrow_char is Some ==> first_arrow_char(g, row as int, start_col as int, end_col as int) == arrow_char,
                            decreases end_col + 1 - c,
                        {
                            let cur = grid.get(row, c);
                            assert(tip_at(g, row as int, c as int) == (cur matches Some(x) && (is_rightward_arrow(x) || is_leftward_arrow(x))));
                            assert(right_tip_at(g, row as int, c as int) == (cur matches Some(x) && is_rightward_arrow(x)));
                            if let Some(x) = cur {
                                if arrow_tip(x) {
                                    has_arrow_tip = true;
                                }
                                if rightward_tip(x) {
                                    points_right = true;
                                }
                                if arrow_char.is_none() && ArrowType::from_char(x).is_some() {
                                    arrow_char = Some(x);
                                }
                            }
                            c += 1;
                        }
                        if has_arrow_tip {
                            arrows.push(HorizontalArrow {
                                row,
                                start_col,
                                end_col,
                                arrow_type: ArrowType::Standard,
                                rightward: points_right,
                                arrow_char,
                            });
                        }
                        col = end_col + 1;
                    } else {
                        col += 1;
                    }
                },
                None => {
                    col += 1;
                },
            }
            assert(arrows@.subrange(0, before.len() as int) =~= before);
            assert(harrows_in_row(g, row as int, 0) =~= arrows@.subrange(before.len() as int, arrows@.len() as int) + harrows_in_row(g, row as int, col as int));
        }
        assert(arrows@ =~= before + harrows_in_row(g, row as int, 0));
        row += 1;
    }
    arrows
}

/// A vertical arrow as the detector reports it: a maximal run of
/// vertical-arrow characters in column `col`, longer than one cell or
/// starting with an arrowhead.
pub open spec fn maximal_vertical_run(g: Seq<Seq<char>>, a: VerticalArrow) -> bool {
    &&& a.start_row <= a.end_row < g.len()
    &&& forall|k: int| a.start_row <= k <= a.end_row ==> #[trigger] varrow_at(g, k, a.col as int)
    &&& a.start_row == 0 || !varrow_at(g, a.start_row - 1, a.col as int)
    &&& a.end_row + 1 >= g.len() || !varrow_at(g, a.end_row + 1, a.col as int)
    &&& a.start_row < a.end_row || a.arrow_char is Some
    &&& cell(g, a.start_row as int, a.col as int) matches Some(ch) && a.downward == !is_upward_arrow(ch)
}

proof fn lemma_varrows_in_col_runs(g: Seq<Seq<char>>, col: int, row: int)
    requires
        0 <= row,
        0 <= col <= usize::MAX,
        g.len() <= usize::MAX,
        row == 0 || !varrow_at(g, row - 1, col) || !varrow_at(g, row, col),
    ensures
        forall|i: int| 0 <= i < varrows_in_col(g, col, row).len() ==> {
            let a = #[trigger] varrows_in_col(g, col, row)[i];
            a.col == col && row <= a.start_row && maximal_vertical_run(g, a)
        },
    decreases g.len() - row,
{
    if row < g.len() {
        match cell(g, row, col) {
            Some(ch) => if is_vertical_arrow(ch) {
                lemma_vrun_bound(g, col, row);
                let end = row + vrun(g, col, row) - 1;
                lemma_varrows_in_col_runs(g, col, end + 1);
            } else {
                lemma_varrows_in_col_runs(g, col, row + 1);
            },
            None => lemma_varrows_in_col_runs(g, col, row + 1),
        }
    }
}

proof fn lemma_varrows_from_col_runs(g: Seq<Seq<char>>, col: int)
    requires
        0 <= col,
        g.len() <= usize::MAX,
        max_row_len(g) <= usize::MAX,
    ensures
        forall|i: int| 0 <= i < varrows_from_col(g, col).len() ==>
            maximal_vertical_run(g, #[trigger] varrows_from_col(g, col)[i]),
    decreases max_row_len(g) - col,
{
    if col < max_row_len(g) {
        lemma_varrows_in_col_runs(g, col, 0);
        lemma_varrows_from_col_runs(g, col + 1);
        let a = varrows_in_col(g, col, 0);
        let b = varrows_from_col(g, col + 1);
        assert forall|i: int| 0 <= i < (a + b).len() implies maximal_vertical_run(g, #[trigger] (a + b)[i]) by {
            if i < a.len() {
                assert((a + b)[i] == a[i]);
            } else {
                assert((a + b)[i] == b[i - a.len()]);
            }
        }
    }
}

/// Every vertical arrow the detector reports is a maximal run of
/// vertical-arrow characters down one column, longer than one cell or
/// starting with an arrowhead.
pub proof fn law_vertical_arrows_are_maximal_runs(g: Seq<Seq<char>>)
    requires
        g.len() <= usize::MAX,
        max_row_len(g) <= usize::MAX,
    ensures
        forall|i: int| 0 <= i < detect_vertical_arrows_spec(g).len() ==>
            maximal_vertical_run(g, #[trigger] detect_vertical_arrows_spec(g)[i]),
{
    lemma_varrows_from_col_runs(g, 0);
}

/// A run of vertical-arrow characters starts at (row, col) that the
/// detector reports: the cell above is no such character, and the run is
/// longer than one cell or starts with an arrowhead.
pub open spec fn reported_run_start(g: Seq<Seq<char>>, col: int, row: int) -> bool {
    &&& 0 <= row < g.len()
    &&& varrow_at(g, row, col)
    &&& row == 0 || !varrow_at(g, row - 1, col)
    &&& vrun(g, col, row) >= 2 || (cell(g, row, col) matches Some(ch) && (is_downward_arrow(ch)
        || is_upward_arrow(ch)))
}

/// The arrows come by column, then by starting row.
pub open spec fn varrows_ordered(s: Seq<VerticalArrow>) -> bool {
    forall|i: int, j: int|
        0 <= i < j < s.len() ==> (#[trigger] s[i]).col < (#[trigger] s[j]).col || (s[i].col == s[j].col
            && s[i].end_row < s[j].start_row)
}

proof fn lemma_varrows_in_col_complete(g: Seq<Seq<char>>, col: int, row: int, r: int)
    requires
        0 <= row <= r,
        0 <= col <= usize::MAX,
        g.len() <= usize::MAX,
        reported_run_start(g, col, r),
    ensures
        exists|i: int| 0 <= i < varrows_in_col(g, col, row).len() && {
            let a = #[trigger] varrows_in_col(g, col, row)[i];
            a.col == col && a.start_row == r && a.end_row == r + vrun(g, col, r) - 1
        },
    decreases g.len() - row,
{
    let out = varrows_in_col(g, col, row);
    lemma_vrun_bound(g, col, row);
    match cell(g, row, col) {
        Some(ch) => if is_vertical_arrow(ch) {
            let end = row + vrun(g, col, row) - 1;
            if row == r {
                assert(out[0].start_row == r);
            } else {
                if r <= end {
                    assert(varrow_at(g, r - 1, col));
                }
                lemma_varrows_in_col_complete(g, col, end + 1, r);
                let rest = varrows_in_col(g, col, end + 1);
                let i = choose|i: int| 0 <= i < rest.len() && {
                    let a = #[trigger] rest[i];
                    a.col == col && a.start_row == r && a.end_row == r + vrun(g, col, r) - 1
                };
                if out.len() > rest.len() {
                    assert(out[i + 1] == rest[i]);
                } else {
                    assert(out[i] == rest[i]);
                }
            }
        } else {
            lemma_varrows_in_col_complete(g, col, row + 1, r);
        },
        None => lemma_varrows_in_col_complete(g, col, row + 1, r),
    }
}

proof fn lemma_varrows_in_col_ordered(g: Seq<Seq<char>>, col: int, row: int)
    requires
        0 <= row,
        0 <= col <= usize::MAX,
        g.len() <= usize::MAX,
    ensures
        forall|i: int| 0 <= i < varrows_in_col(g, col, row).len() ==> {
            let a = #[trigger] varrows_in_col(g, col, row)[i];
            a.col == col && row <= a.start_row <= a.end_row
        },
        varrows_ordered(varrows_in_col(g, col, row)),
    decreases g.len() - row,
{
    if row < g.len() {
        lemma_vrun_bound(g, col, row);
        match cell(g, row, col) {
            Some(ch) => if is_vertical_arrow(ch) {
                let end = row + vrun(g, col, row) - 1;
                lemma_varrows_in_col_ordered(g, col, end + 1);
                let rest = varrows_in_col(g, col, end + 1);
                let out = varrows_in_col(g, col, row);
                if out.len() > rest.len() {
                    assert forall|i: int| 0 <= i < out.len() implies {
                        let a = #[trigger] out[i];
                        a.col == col && row <= a.start_row <= a.end_row
                    } by {
                        if i > 0 {
                            assert(out[i] == rest[i - 1]);
                        }
                    }
                    assert forall|i: int, j: int| 0 <= i < j < out.len() implies (#[trigger] out[i]).col < (
                    #[trigger] out[j]).col || (out[i].col == out[j].col && out[i].end_row < out[j].start_row) by {
                        assert(out[j] == rest[j - 1]);
                        if i > 0 {
                            assert(out[i] == rest[i - 1]);
                        }
                    }
                }
            } else {
                lemma_varrows_in_col_ordered(g, col, row + 1);
            },
            None => lemma_varrows_in_col_ordered(g, col, row + 1),
        }
    }
}

proof fn lemma_varrows_from_col_complete(g: Seq<Seq<char>>, col: int, c: int, r: int)
    requires
        0 <= col <= c < max_row_len(g),
        g.len() <= usize::MAX,
        max_row_len(g) <= usize::MAX,
        reported_run_start(g, c, r),
    ensures
        exists|i: int| 0 <= i < varrows_from_col(g, col).len() && {
            let a = #[trigger] varrows_from_col(g, col)[i];
            a.col == c && a.start_row == r && a.end_row == r + vrun(g, c, r) - 1
        },
    decreases max_row_len(g) - col,
{
    let a = varrows_in_col(g, col, 0);
    let b = varrows_from_col(g, col + 1);
    assert(varrows_from_col(g, col) == a + b);
    if col == c {
        lemma_varrows_in_col_complete(g, c, 0, r);
        let i = choose|i: int| 0 <= i < a.len() && {
            let x = #[trigger] a[i];
            x.col == c && x.start_row == r && x.end_row == r + vrun(g, c, r) - 1
        };
        assert((a + b)[i] == a[i]);
    } else {
        lemma_varrows_from_col_complete(g, col + 1, c, r);
        let i = choose|i: int| 0 <= i < b.len() && {
            let x = #[trigger] b[i];
            x.col == c && x.start_row == r && x.end_row == r + vrun(g, c, r) - 1
        };
        assert((a + b)[a.len() + i] == b[i]);
    }
}

proof fn lemma_varrows_from_col_ordered(g: Seq<Seq<char>>, col: int)
    requires
        0 <= col,
        g.len() <= usize::MAX,
        max_row_len(g) <= usize::MAX,
    ensures
        forall|i: int| 0 <= i < varrows_from_col(g, col).len() ==> (#[trigger] varrows_from_col(g, col)[i]).col >= col,
        varrows_ordered(varrows_from_col(g, col)),
    decreases max_row_len(g) - col,
{
    if col < max_row_len(g) {
        lemma_varrows_in_col_ordered(g, col, 0);
        lemma_varrows_from_col_ordered(g, col + 1);
        let a = varrows_in_col(g, col, 0);
        let b = varrows_from_col(g, col + 1);
        let all = varrows_from_col(g, col);
        assert(all == a + b);
        assert forall|i: int| 0 <= i < all.len() implies (#[trigger] all[i]).col >= col by {
            if i < a.len() {
                assert(all[i] == a[i]);
            } else {
                assert(all[i] == b[i - a.len()]);
            }
        }
        assert forall|i: int, j: int| 0 <= i < j < all.len() implies (#[trigger] all[i]).col < (
        #[trigger] all[j]).col || (all[i].col == all[j].col && all[i].end_row < all[j].start_row) by {
            if j < a.len() {
                assert(all[i] == a[i] && all[j] == a[j]);
            } else if i < a.len() {
                assert(all[i] == a[i] && all[j] == b[j - a.len()]);
            } else {
                assert(all[i] == b[i - a.len()] && all[j] == b[j - a.len()]);
            }
        }
    }
}

/// The detector reports every such run exactly where it is: for each run
/// start of a column that [`reported_run_start`] admits, an arrow from
/// that row to the run's last row; and the arrows come by column, then
/// top to bottom, each after the previous one has ended.
pub proof fn law_vertical_arrows_complete_and_ordered(g: Seq<Seq<char>>)
    requires
        g.len() <= usize::MAX,
        max_row_len(g) <= usize::MAX,
    ensures
        forall|c: int, r: int|
            0 <= c < max_row_len(g) && #[trigger] reported_run_start(g, c, r) ==> exists|i: int|
                0 <= i < detect_vertical_arrows_spec(g).len() && {
                    let a = #[trigger] detect_vertical_arrows_spec(g)[i];
                    a.col == c && a.start_row == r && a.end_row == r + vrun(g, c, r) - 1
                },
        varrows_ordered(detect_vertical_arrows_spec(g)),
{
    assert forall|c: int, r: int|
        0 <= c < max_row_len(g) && #[trigger] reported_run_start(g, c, r) implies exists|i: int|
            0 <= i < detect_vertical_arrows_spec(g).len() && {
                let a = #[trigger] detect_vertical_arrows_spec(g)[i];
                a.col == c && a.start_row == r && a.end_row == r + vrun(g, c, r) - 1
            } by {
        lemma_varrows_from_col_complete(g, 0, c, r);
        let all = varrows_from_col(g, 0);
        assert(detect_vertical_arrows_spec(g) == all);
        let i = choose|i: int| 0 <= i < all.len() && {
            let a = #[trigger] all[i];
            a.col == c && a.start_row == r && a.end_row == r + vrun(g, c, r) - 1
        };
        assert(detect_vertical_arrows_spec(g)[i] == all[i]);
    }
    lemma_varrows_from_col_ordered(g, 0);
}

} // verus!
