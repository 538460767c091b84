//! 2D grid representation for ASCII diagrams.

use vstd::prelude::*;
use crate::text::{
    chars_of, join_lines, join_lines_vec, string_of, trim_end, trim_end_vec,
};

verus! {

/// A 2D grid of characters representing an ASCII diagram.
#[derive(Debug, Clone, PartialEq, Eq)]
pub struct Grid {
    /// Grid data: rows of characters
    rows: Vec<Vec<char>>,
}

impl View for Grid {
    type V = Seq<Seq<char>>;

    closed spec fn view(&self) -> Seq<Seq<char>> {
        self.rows@.map_values(|r: Vec<char>| r@)
    }
}

/// Length of the longest row (0 for no rows).
pub open spec fn max_row_len(rows: Seq<Seq<char>>) -> nat
    decreases rows.len(),
{
    if rows.len() == 0 {
        0
    } else {
        let m = max_row_len(rows.drop_last());
        if rows.last().len() > m {
            rows.last().len()
        } else {
            m
        }
    }
}

/// The character at (row, col), or `None` outside the grid.
pub open spec fn cell(g: Seq<Seq<char>>, row: int, col: int) -> Option<char> {
    if 0 <= row < g.len() && 0 <= col < g[row].len() {
        Some(g[row][col])
    } else {
        None
    }
}

/// The grid with the cell at (row, col) replaced, when it exists.
pub open spec fn set_cell(g: Seq<Seq<char>>, row: int, col: int, ch: char) -> Seq<Seq<char>> {
    if 0 <= row < g.len() && 0 <= col < g[row].len() {
        g.update(row, g[row].update(col, ch))
    } else {
        g
    }
}

/// Every row is at most as long as the longest one, which is one of them.
pub proof fn lemma_max_row_len(rows: Seq<Seq<char>>)
    ensures
        forall|i: int| 0 <= i < rows.len() ==> (#[trigger] rows[i]).len() <= max_row_len(rows),
        rows.len() > 0 ==> exists|i: int| 0 <= i < rows.len() && rows[i].len() == max_row_len(rows),
        rows.len() == 0 ==> max_row_len(rows) == 0,
    decreases rows.len(),
{
    if rows.len() > 0 {
        lemma_max_row_len(rows.drop_last());
        assert forall|i: int| 0 <= i < rows.len() implies (#[trigger] rows[i]).len() <= max_row_len(rows) by {
            if i < rows.len() - 1 {
                assert(rows[i] == rows.drop_last()[i]);
            }
        }
        if rows.last().len() > max_row_len(rows.drop_last()) {
            assert(rows[rows.len() - 1].len() == max_row_len(rows));
        } else {
            if rows.len() > 1 {
                let k = choose|i: int| 0 <= i < rows.drop_last().len() && rows.drop_last()[i].len() == max_row_len(rows.drop_last());
                assert(rows[k] == rows.drop_last()[k]);
            } else {
                assert(rows[0].len() >= 0);
            }
        }
    }
}

impl Grid {
    /// The rows of the grid, each as a character sequence.
    pub open spec fn rows_view(&self) -> Seq<Seq<char>> {
        self@
    }

    /// Create a grid from lines of text.
    pub fn from_lines(lines: &[&str]) -> (g: Grid)
        ensures
            g@.len() == lines@.len(),
            forall|i: int| 0 <= i < lines@.len() ==> (#[trigger] g@[i]) == lines@[i]@,
    {
        let mut rows: Vec<Vec<char>> = Vec::new();
        let mut i: usize = 0;
        while i < lines.len()
            invariant
                i <= lines@.len(),
                rows@.len() == i,
                forall|k: int| 0 <= k < i ==> (#[trigger] rows@[k])@ == lines@[k]@,
            decreases lines@.len() - i,
        {
            rows.push(chars_of(lines[i]));
            i += 1;
        }
        let g = Grid { rows };
        assert forall|k: int| 0 <= k < lines@.len() implies (#[trigger] g@[k]) == lines@[k]@ by {
            assert(g@[k] == g.rows@[k]@);
        }
        g
    }

    /// Create a grid from rows of characters.
    pub fn from_rows(rows: Vec<Vec<char>>) -> (g: Grid)
        ensures
            g@ == rows@.map_values(|r: Vec<char>| r@),
    {
        Grid { rows }
    }

    /// Get the number of rows in the grid.
    pub fn height(&self) -> (h: usize)
        ensures
            h == self@.len(),
    {
        self.rows.len()
    }

    /// Get the number of columns in the grid (width of the longest row).
    pub fn width(&self) -> (w: usize)
        ensures
            w == max_row_len(self@),
    {
        let ghost g = self@;
        let mut m: usize = 0;
        let mut i: usize = 0;
        while i < self.rows.len()
            invariant
                i <= self.rows@.len(),
                g == self@,
                g.len() == self.rows@.len(),
                m == max_row_len(g.take(i as int)),
            decreases self.rows@.len() - i,
        {
            assert(g.take(i + 1).drop_last() =~= g.take(i as int));
            assert(g.take(i + 1).last() == self.rows@[i as int]@);
            if self.rows[i].len() > m {
                m = self.rows[i].len();
            }
            i += 1;
        }
        assert(g.take(i as int) =~= g);
        m
    }

    /// Get a character at (row, col). Returns None if out of bounds.
    pub fn get(&self, row: usize, col: usize) -> (r: Option<char>)
        ensures
            r == cell(self@, row as int, col as int),
    {
        if row < self.rows.len() && col < self.rows[row].len() {
            Some(self.rows[row][col])
        } else {
            None
        }
    }

    /// Get a mutable reference to a cell. Returns None if out of bounds.
    pub fn get_mut(&mut self, row: usize, col: usize) -> (r: Option<&mut char>)
        ensures
            (r is Some) == (cell(old(self)@, row as int, col as int) is Some),
            r matches Some(c) ==> *c == old(self)@[row as int][col as int] && final(self)@
                == set_cell(old(self)@, row as int, col as int, *final(c)),
            r is None ==> final(self)@ == old(self)@,
    {
        if row < self.rows.len() && col < self.rows[row].len() {
            let r = &mut self.rows[row];
            Some(&mut r[col])
        } else {
            None
        }
    }

    /// Replace the character at (row, col); nothing happens outside the grid.
    pub fn set(&mut self, row: usize, col: usize, ch: char)
        ensures
            final(self)@ == set_cell(old(self)@, row as int, col as int, ch),
    {
        if row < self.rows.len() && col < self.rows[row].len() {
            let mut r: Vec<char> = Vec::new();
            std::mem::swap(&mut r, &mut self.rows[row]);
            r.set(col, ch);
            self.rows.set(row, r);
            assert(self@ =~= set_cell(old(self)@, row as int, col as int, ch));
        }
    }

    /// Render the grid back to a string (including trailing whitespace).
    pub fn render(&self) -> (s: String)
        ensures
            s@ == join_lines(self@),
    {
        let r = join_lines_vec(&self.rows);
        string_of(&r)
    }

    /// Render the grid, trimming trailing whitespace from each line.
    pub fn render_trimmed(&self) -> (s: String)
        ensures
            s@ == join_lines(self@.map_values(|r: Seq<char>| trim_end(r))),
    {
        let mut trimmed: Vec<Vec<char>> = Vec::new();
        let mut i: usize = 0;
        while i < self.rows.len()
            invariant
                i <= self.rows@.len(),
                trimmed@.len() == i,
                forall|k: int| 0 <= k < i ==> (#[trigger] trimmed@[k])@ == trim_end(self.rows@[k]@),
            decreases self.rows@.len() - i,
        {
            trimmed.push(trim_end_vec(&self.rows[i]));
            i += 1;
        }
        let r = join_lines_vec(&trimmed);
        assert(trimmed@.map_values(|l: Vec<char>| l@) =~= self@.map_values(|r: Seq<char>| trim_end(r)));
        string_of(&r)
    }
}

} // verus!
