//! Table unwrapping for hard-wrapped Markdown tables.
//!
//! This module detects and repairs tables where cells have been hard-wrapped
//! at 80 columns, joining continuation lines back into single cells.

use vstd::prelude::*;

use crate::text::{
    chars_of, contains_seq, contains_vec, is_blank, is_blank_vec, lines, split_lines, string_of,
    trim, trim_vec, append_chars,
};

verus! {

/// The views of character vectors.
pub open spec fn vv(v: Seq<Vec<char>>) -> Seq<Seq<char>> {
    v.map_values(|x: Vec<char>| x@)
}

/// The pieces of a text between `sep` characters, after the first `k`
/// characters: those completed, and the one being read.
pub open spec fn split_upto(s: Seq<char>, sep: char, k: int) -> (Seq<Seq<char>>, Seq<char>)
    decreases k,
{
    if k <= 0 {
        (Seq::empty(), Seq::empty())
    } else {
        let (done, cur) = split_upto(s, sep, k - 1);
        if s[k - 1] == sep {
            (done.push(cur), Seq::empty())
        } else {
            (done, cur.push(s[k - 1]))
        }
    }
}

/// `str::split(sep)`: the pieces between separators, including empty ones
/// at either end.
pub open spec fn split_on(s: Seq<char>, sep: char) -> Seq<Seq<char>> {
    let (done, cur) = split_upto(s, sep, s.len() as int);
    done.push(cur)
}

/// The text starts and ends with `|`.
pub open spec fn pipe_bounded(t: Seq<char>) -> bool {
    t.len() > 0 && t[0] == '|' && t.last() == '|'
}

/// The cells of a table row: the pieces after the first `|` of the trimmed
/// row, the last one dropped when empty; nothing for a non-row.
pub open spec fn table_cells(line: Seq<char>) -> Seq<Seq<char>> {
    let t = trim(line);
    if !pipe_bounded(t) {
        Seq::empty()
    } else {
        let parts = split_on(t, '|').skip(1);
        if parts.len() > 0 && parts.last().len() == 0 {
            parts.drop_last()
        } else {
            parts
        }
    }
}

/// Split a text at a separator.
pub fn split_char(v: &Vec<char>, sep: char) -> (r: Vec<Vec<char>>)
    ensures
        vv(r@) == split_on(v@, sep),
{
    let mut done: Vec<Vec<char>> = Vec::new();
    let mut cur: Vec<char> = Vec::new();
    let mut i: usize = 0;
    while i < v.len()
        invariant
            i <= v@.len(),
            (vv(done@), cur@) == split_upto(v@, sep, i as int),
        decreases v@.len() - i,
    {
        let ghost d0 = vv(done@);
        if v[i] == sep {
            let mut piece: Vec<char> = Vec::new();
            std::mem::swap(&mut piece, &mut cur);
            done.push(piece);
            proof {
                assert(vv(done@) =~= d0.push(done@[done@.len() - 1]@));
            }
        } else {
            cur.push(v[i]);
        }
        i += 1;
    }
    let ghost d0 = vv(done@);
    done.push(cur);
    proof {
        assert(vv(done@) =~= d0.push(done@[done@.len() - 1]@));
    }
    done
}

/// Split a table row into cells.
fn split_table_cells(line: &Vec<char>) -> (r: Vec<Vec<char>>)
    ensures
        vv(r@) == table_cells(line@),
{
    let t = trim_vec(line);
    if !(t.len() > 0 && t[0] == '|' && t[t.len() - 1] == '|') {
        return Vec::new();
    }
    let all = split_char(&t, '|');
    let ghost av = vv(all@);
    let mut parts: Vec<Vec<char>> = Vec::new();
    let mut i: usize = 1;
    proof {
        let (d, c) = split_upto(t@, '|', t@.len() as int);
        assert(split_on(t@, '|') == d.push(c));
        assert(av.len() == d.len() + 1);
    }
    while i < all.len()
        invariant
            1 <= i <= all@.len(),
            av == vv(all@),
            vv(parts@) == av.skip(1).take(i - 1),
        decreases all@.len() - i,
    {
        let ghost p0 = vv(parts@);
        let piece = crate::text::slice_vec(&all[i], 0, all[i].len());
        parts.push(piece);
        proof {
            assert(av[i as int] == all@[i as int]@);
            assert(piece@ =~= all@[i as int]@);
            assert(vv(parts@) =~= p0.push(piece@));
            assert(vv(parts@) =~= av.skip(1).take(i as int));
        }
        i += 1;
    }
    proof {
        assert(av.skip(1).take(i - 1) =~= av.skip(1));
    }
    if parts.len() > 0 && parts[parts.len() - 1].len() == 0 {
        let ghost p0 = vv(parts@);
        parts.pop();
        proof {
            assert(vv(parts@) =~= p0.drop_last());
        }
    }
    parts
}

/// The trimmed line starts and ends with `|`.
pub open spec fn table_row_spec(line: Seq<char>) -> bool {
    pipe_bounded(trim(line))
}

/// Check if a line looks like a table row (starts and ends with |).
fn is_table_row(line: &Vec<char>) -> (b: bool)
    ensures
        b == table_row_spec(line@),
{
    let t = trim_vec(line);
    t.len() > 0 && t[0] == '|' && t[t.len() - 1] == '|'
}

/// Number of cells that are not blank.
pub open spec fn non_blank_count(cells: Seq<Seq<char>>) -> nat
    decreases cells.len(),
{
    if cells.len() == 0 {
        0
    } else {
        non_blank_count(cells.drop_last()) + if is_blank(cells.last()) { 0nat } else { 1nat }
    }
}

/// A continuation row: at most one non-blank cell, at least one blank cell,
/// and a blank first cell.
pub open spec fn continuation_spec(line: Seq<char>) -> bool {
    let cells = table_cells(line);
    cells.len() > 0 && non_blank_count(cells) <= 1 && non_blank_count(cells) < cells.len()
        && is_blank(cells[0])
}

/// Check if a row is a continuation of the previous row.
fn is_continuation_row(line: &Vec<char>) -> (b: bool)
    ensures
        b == continuation_spec(line@),
{
    let cells = split_table_cells(line);
    let ghost cv = vv(cells@);
    if cells.len() == 0 {
        return false;
    }
    let mut n: usize = 0;
    let mut i: usize = 0;
    while i < cells.len()
        invariant
            i <= cells@.len(),
            cv == vv(cells@),
            n == non_blank_count(cv.take(i as int)),
            n <= i,
        decreases cells@.len() - i,
    {
        proof {
            assert(cv.take(i + 1).drop_last() =~= cv.take(i as int));
            assert(cv.take(i + 1).last() == cells@[i as int]@);
        }
        if !is_blank_vec(&cells[i]) {
            n += 1;
        }
        i += 1;
    }
    proof {
        assert(cv.take(i as int) =~= cv);
        assert(cv[0] == cells@[0]@);
    }
    n <= 1 && n < cells.len() && is_blank_vec(&cells[0])
}

/// Some table row follows a table row and continues it.
pub open spec fn wrapped_spec(content: Seq<char>) -> bool {
    let ls = lines(content);
    exists|i: int|
        0 < i < ls.len() && table_row_spec(trim(#[trigger] ls[i])) && table_row_spec(trim(ls[i - 1]))
            && continuation_spec(trim(ls[i]))
}

/// Check if a table has wrapped cells that need unwrapping: some table row
/// follows a table row and continues it.
pub fn has_wrapped_cells(content: &str) -> (b: bool)
    ensures
        b == wrapped_spec(content@),
{
    let ls = split_lines(&chars_of(content));
    let ghost lv = lines(content@);
    let mut i: usize = 0;
    while i < ls.len()
        invariant
            i <= ls@.len(),
            ls@.len() == lv.len(),
            lv == lines(content@),
            forall|k: int| 0 <= k < ls@.len() ==> (#[trigger] ls@[k])@ == lv[k],
            forall|j: int|
                0 < j < i ==> !(table_row_spec(trim(#[trigger] lv[j])) && table_row_spec(trim(lv[j - 1]))
                    && continuation_spec(trim(lv[j]))),
        decreases ls@.len() - i,
    {
        let line = trim_vec(&ls[i]);
        proof {
            assert(lv[i as int] == ls@[i as int]@);
        }
        if is_table_row(&line) && i > 0 {
            let prev = trim_vec(&ls[i - 1]);
            proof {
                assert(lv[i - 1] == ls@[i - 1]@);
            }
            if is_table_row(&prev) && is_continuation_row(&line) {
                return true;
            }
        }
        i += 1;
    }
    false
}

// ---------------------------------------------------------------------------
// Unwrapping
// ---------------------------------------------------------------------------

/// The trimmed line holds a code fence marker.
pub open spec fn fence_in(line: Seq<char>) -> bool {
    contains_seq(trim(line), seq!['`', '`', '`']) || contains_seq(trim(line), seq!['~', '~', '~'])
}

/// Check if a line contains code fence markers.
pub fn contains_code_fence(line: &str) -> (b: bool)
    ensures
        b == fence_in(line@),
{
    let t = trim_vec(&chars_of(line));
    let ticks: Vec<char> = vec!['`', '`', '`'];
    let tildes: Vec<char> = vec!['~', '~', '~'];
    contains_vec(&t, &ticks) || contains_vec(&t, &tildes)
}

/// The views of rows.
pub open spec fn rows_view(rows: Seq<&str>) -> Seq<Seq<char>> {
    rows.map_values(|r: &str| r@)
}

/// Check if a sequence of rows contains any code fences.
fn rows_contain_code_fence(rows: &[&str]) -> (b: bool)
    ensures
        b == exists|k: int| 0 <= k < rows@.len() && fence_in(#[trigger] rows_view(rows@)[k]),
{
    let mut k: usize = 0;
    while k < rows.len()
        invariant
            k <= rows@.len(),
            forall|q: int| 0 <= q < k ==> !fence_in(#[trigger] rows_view(rows@)[q]),
        decreases rows@.len() - k,
    {
        if contains_code_fence(rows[k]) {
            assert(fence_in(rows_view(rows@)[k as int]));
            return true;
        }
        k += 1;
    }
    false
}

/// The first `]` from `j` on that does not follow a backslash.
pub open spec fn tclose_bracket(s: Seq<char>, j: int) -> Option<int>
    decreases s.len() - j,
{
    if j >= s.len() || j < 0 {
        None
    } else if s[j] == ']' && (j == 0 || s[j - 1] != '\\') {
        Some(j)
    } else {
        tclose_bracket(s, j + 1)
    }
}

/// The `)` from `j` on that closes `depth` open parentheses.
pub open spec fn tclose_paren(s: Seq<char>, j: int, depth: int) -> bool
    decreases s.len() - j,
{
    if j >= s.len() || j < 0 {
        false
    } else if s[j] == '(' {
        tclose_paren(s, j + 1, depth + 1)
    } else if s[j] == ')' {
        depth - 1 == 0 || tclose_paren(s, j + 1, depth - 1)
    } else {
        tclose_paren(s, j + 1, depth)
    }
}

/// At `i` a link opens, `[text](`, whose `)` is not on the row.
pub open spec fn open_link_at(s: Seq<char>, i: int) -> bool {
    &&& 0 <= i < s.len()
    &&& s[i] == '['
    &&& tclose_bracket(s, i + 1) matches Some(te) && te + 1 < s.len() && s[te + 1] == '(' && !tclose_paren(s, te + 2, 1)
}

/// A row other than the last opens a link it does not close.
pub open spec fn incomplete_link_spec(rows: Seq<Seq<char>>) -> bool {
    exists|r: int, i: int| 0 <= r && r + 1 < rows.len() && #[trigger] open_link_at(rows[r], i)
}

proof fn lemma_tclose_bracket(s: Seq<char>, j: int)
    requires
        0 <= j,
    ensures
        tclose_bracket(s, j) matches Some(k) ==> j <= k < s.len(),
    decreases s.len() - j,
{
    if j < s.len() && !(s[j] == ']' && (j == 0 || s[j - 1] != '\\')) {
        lemma_tclose_bracket(s, j + 1);
    }
}

fn tfind_closing_bracket(chars: &Vec<char>, start: usize) -> (r: Option<usize>)
    ensures
        r matches Some(k) ==> tclose_bracket(chars@, start as int) == Some(k as int),
        r is None ==> tclose_bracket(chars@, start as int) is None,
{
    let mut i = start;
    while i < chars.len()
        invariant
            start <= i,
            tclose_bracket(chars@, start as int) == tclose_bracket(chars@, i as int),
        decreases chars@.len() - i,
    {
        if chars[i] == ']' && (i == 0 || chars[i - 1] != '\\') {
            return Some(i);
        }
        i += 1;
    }
    None
}

fn tfind_closing_paren(chars: &Vec<char>, start: usize) -> (b: bool)
    ensures
        b == tclose_paren(chars@, start as int, 1),
{
    let mut depth: u128 = 1;
    let mut i = start;
    while i < chars.len()
        invariant
            start <= i,
            1 <= depth <= i - start + 1,
            tclose_paren(chars@, start as int, 1) == tclose_paren(chars@, i as int, depth as int),
        decreases chars@.len() - i,
    {
        if chars[i] == '(' {
            depth += 1;
        } else if chars[i] == ')' {
            if depth - 1 == 0 {
                return true;
            }
            depth -= 1;
        }
        i += 1;
    }
    false
}

/// Check if rows contain an incomplete link that spans across the wrap
/// boundary: a row other than the last opens `[text](` without its `)`.
pub fn has_incomplete_link_across_rows(rows: &[&str]) -> (b: bool)
    ensures
        b == incomplete_link_spec(rows_view(rows@)),
{
    let ghost rv = rows_view(rows@);
    let _n = rows.len();
    let mut r: usize = 0;
    while r < rows.len()
        invariant
            r <= rows@.len() <= usize::MAX,
            rv == rows_view(rows@),
            forall|q: int, i: int| 0 <= q < r && q + 1 < rv.len() ==> !#[trigger] open_link_at(rv[q], i),
        decreases rows@.len() - r,
    {
        let chars = chars_of(rows[r]);
        proof {
            assert(rv[r as int] == chars@);
        }
        let mut i: usize = 0;
        while i < chars.len()
            invariant
                i <= chars@.len(),
                r < rv.len(),
                r < rows@.len() <= usize::MAX,
                rv == rows_view(rows@),
                rv[r as int] == chars@,
                forall|q: int| 0 <= q < i && r + 1 < rv.len() ==> !open_link_at(chars@, q),
            decreases chars@.len() - i,
        {
            if chars[i] == '[' {
                proof {
                    lemma_tclose_bracket(chars@, i + 1);
                }
                match tfind_closing_bracket(&chars, i + 1) {
                    Some(text_end) => {
                        if text_end + 1 < chars.len() && chars[text_end + 1] == '(' {
                            if !tfind_closing_paren(&chars, text_end + 2) {
                                if r + 1 < rows.len() {
                                    assert(open_link_at(rv[r as int], i as int));
                                    return true;
                                }
                            }
                        }
                    },
                    None => {},
                }
            }
            i += 1;
        }
        proof {
            assert forall|i2: int| r + 1 < rv.len() implies !#[trigger] open_link_at(rv[r as int], i2) by {
                if 0 <= i2 < chars@.len() {
                } 
            }
        }
        r += 1;
    }
    false
}

/// A row of cells as a table row: `|`, then ` cell |` for each cell.
pub open spec fn format_row_spec(cells: Seq<Seq<char>>) -> Seq<char>
    decreases cells.len(),
{
    if cells.len() == 0 {
        seq!['|']
    } else {
        format_row_spec(cells.drop_last()) + seq![' '] + cells.last() + seq![' ', '|']
    }
}

/// Format a row of cells back into a table row string.
fn format_row(cells: &Vec<Vec<char>>) -> (r: Vec<char>)
    ensures
        r@ == format_row_spec(vv(cells@)),
{
    let mut result: Vec<char> = Vec::new();
    result.push('|');
    let mut i: usize = 0;
    while i < cells.len()
        invariant
            i <= cells@.len(),
            result@ == format_row_spec(vv(cells@).take(i as int)),
        decreases cells@.len() - i,
    {
        result.push(' ');
        append_chars(&mut result, &cells[i]);
        result.push(' ');
        result.push('|');
        proof {
            assert(vv(cells@).take(i + 1).drop_last() =~= vv(cells@).take(i as int));
            assert(vv(cells@).take(i + 1).last() == cells@[i as int]@);
            assert(result@ =~= format_row_spec(vv(cells@).take(i + 1)));
        }
        i += 1;
    }
    proof {
        assert(vv(cells@).take(i as int) =~= vv(cells@));
    }
    result
}

/// Continuation cells merged into the pending row: a non-blank cell (trimmed)
/// is appended to the pending cell of its column, after a space unless that
/// cell is empty.
pub open spec fn merge_cells(p: Seq<Seq<char>>, cells: Seq<Seq<char>>) -> Seq<Seq<char>> {
    Seq::new(p.len(), |k: int| if k < cells.len() && trim(cells[k]).len() > 0 {
        (if p[k].len() > 0 { p[k].push(' ') } else { p[k] }) + trim(cells[k])
    } else {
        p[k]
    })
}

/// The cells trimmed.
pub open spec fn trimmed_cells(cells: Seq<Seq<char>>) -> Seq<Seq<char>> {
    cells.map_values(|c: Seq<char>| trim(c))
}

/// Rows emitted and the pending row after the first `k` rows.
pub open spec fn unwrap_upto(rows: Seq<Seq<char>>, k: int) -> (Seq<Seq<char>>, Option<Seq<Seq<char>>>)
    decreases k,
{
    if k <= 0 {
        (Seq::empty(), None)
    } else {
        let (res, pend) = unwrap_upto(rows, k - 1);
        let row = rows[k - 1];
        let cells = table_cells(row);
        if cells.len() == 0 {
            (res, pend)
        } else {
            match pend {
                Some(p) => if continuation_spec(row) {
                    (res, Some(merge_cells(p, cells)))
                } else {
                    (res.push(format_row_spec(p)), Some(trimmed_cells(cells)))
                },
                None => (res, Some(trimmed_cells(cells))),
            }
        }
    }
}

/// The rows `unwrap_table_rows` produces: unchanged when a row holds a code
/// fence or a link is left open across rows; otherwise each row that is not
/// a continuation starts a new row and continuation rows are merged into it.
pub open spec fn unwrap_spec(rows: Seq<Seq<char>>) -> Seq<Seq<char>> {
    if rows.len() == 0 {
        Seq::empty()
    } else if exists|k: int| 0 <= k < rows.len() && fence_in(#[trigger] rows[k]) {
        rows
    } else if incomplete_link_spec(rows) {
        rows
    } else {
        let (res, pend) = unwrap_upto(rows, rows.len() as int);
        match pend {
            Some(p) => res.push(format_row_spec(p)),
            None => res,
        }
    }
}

/// Rows are left whole when one of them holds a code fence or a link is
/// left open across rows.
pub proof fn law_fence_or_open_link_left_whole(rows: Seq<Seq<char>>)
    requires
        (exists|k: int| 0 <= k < rows.len() && fence_in(#[trigger] rows[k])) || incomplete_link_spec(rows),
    ensures
        unwrap_spec(rows) == rows,
{
}

/// The views of strings.
pub open spec fn sv(v: Seq<String>) -> Seq<Seq<char>> {
    v.map_values(|s: String| s@)
}

fn rows_as_strings(rows: &[&str]) -> (r: Vec<String>)
    ensures
        sv(r@) == rows_view(rows@),
{
    let mut r: Vec<String> = Vec::new();
    let mut k: usize = 0;
    while k < rows.len()
        invariant
            k <= rows@.len(),
            sv(r@) == rows_view(rows@).take(k as int),
        decreases rows@.len() - k,
    {
        let ghost r0 = sv(r@);
        let s = string_of(&chars_of(rows[k]));
        r.push(s);
        proof {
            assert(rows_view(rows@)[k as int] == rows@[k as int]@);
            assert(sv(r@) =~= r0.push(rows@[k as int]@));
            assert(sv(r@) =~= rows_view(rows@).take(k + 1));
        }
        k += 1;
    }
    proof {
        assert(rows_view(rows@).take(k as int) =~= rows_view(rows@));
    }
    r
}

fn trim_cells(cells: &Vec<Vec<char>>) -> (r: Vec<Vec<char>>)
    ensures
        vv(r@) == trimmed_cells(vv(cells@)),
{
    let mut r: Vec<Vec<char>> = Vec::new();
    let mut k: usize = 0;
    while k < cells.len()
        invariant
            k <= cells@.len(),
            vv(r@) == trimmed_cells(vv(cells@)).take(k as int),
        decreases cells@.len() - k,
    {
        let ghost r0 = vv(r@);
        let t = trim_vec(&cells[k]);
        r.push(t);
        proof {
            assert(vv(cells@)[k as int] == cells@[k as int]@);
            assert(trimmed_cells(vv(cells@))[k as int] == trim(cells@[k as int]@));
            assert(vv(r@) =~= r0.push(trim(cells@[k as int]@)));
            assert(vv(r@) =~= trimmed_cells(vv(cells@)).take(k + 1));
        }
        k += 1;
    }
    proof {
        assert(trimmed_cells(vv(cells@)).take(k as int) =~= trimmed_cells(vv(cells@)));
    }
    r
}

fn merge_exec(p: &mut Vec<Vec<char>>, cells: &Vec<Vec<char>>)
    ensures
        vv(final(p)@) == merge_cells(vv(old(p)@), vv(cells@)),
{
    let ghost p0 = vv(p@);
    let n = p.len();
    let mut idx: usize = 0;
    while idx < n
        invariant
            idx <= n == p@.len(),
            p0.len() == n,
            forall|k: int| 0 <= k < n ==> #[trigger] vv(p@)[k] == if k < idx { merge_cells(p0, vv(cells@))[k] } else { p0[k] },
        decreases n - idx,
    {
        let ghost before = vv(p@);
        let ghost m = merge_cells(p0, vv(cells@));
        proof {
            assert(before[idx as int] == p0[idx as int]);
        }
        if idx < cells.len() {
            let ct = trim_vec(&cells[idx]);
            proof {
                assert(vv(cells@)[idx as int] == cells@[idx as int]@);
            }
            if ct.len() > 0 {
                let mut cell: Vec<char> = Vec::new();
                std::mem::swap(&mut cell, &mut p[idx]);
                proof {
                    assert(cell@ == p0[idx as int]);
                }
                if cell.len() > 0 {
                    cell.push(' ');
                }
                append_chars(&mut cell, &ct);
                proof {
                    assert(cell@ == m[idx as int]);
                }
                p.set(idx, cell);
                proof {
                    assert(vv(p@) =~= before.update(idx as int, m[idx as int]));
                }
            }
        }
        proof {
            assert forall|k: int| 0 <= k < n implies #[trigger] vv(p@)[k] == if k < idx + 1 { m[k] } else { p0[k] } by {
                if k == idx {
                    assert(vv(cells@).len() == cells@.len());
                } else {
                    assert(vv(p@)[k] == before[k]);
                }
            }
        }
        idx += 1;
    }
    proof {
        assert(vv(p@) =~= merge_cells(p0, vv(cells@)));
    }
}

/// Unwrap table rows by joining continuation lines.
///
/// Rows that are not table rows are skipped; a continuation row is merged
/// cell by cell into the row before it. Rows with code fences, or with a
/// link left open across rows, are returned unchanged.
pub fn unwrap_table_rows(rows: &[&str]) -> (r: Vec<String>)
    ensures
        sv(r@) == unwrap_spec(rows_view(rows@)),
{
    let ghost rv = rows_view(rows@);
    if rows.len() == 0 {
        return Vec::new();
    }
    if rows_contain_code_fence(rows) {
        return rows_as_strings(rows);
    }
    if has_incomplete_link_across_rows(rows) {
        return rows_as_strings(rows);
    }
    let mut result: Vec<String> = Vec::new();
    let mut has_pending = false;
    let mut pending: Vec<Vec<char>> = Vec::new();
    let mut k: usize = 0;
    while k < rows.len()
        invariant
            k <= rows@.len(),
            rv == rows_view(rows@),
            unwrap_upto(rv, k as int) == (sv(result@), if has_pending { Some(vv(pending@)) } else { None::<Seq<Seq<char>>> }),
        decreases rows@.len() - k,
    {
        let row = chars_of(rows[k]);
        proof {
            assert(rv[k as int] == row@);
        }
        let cells = split_table_cells(&row);
        if cells.len() > 0 {
            if has_pending {
                if is_continuation_row(&row) {
                    merge_exec(&mut pending, &cells);
                } else {
                    let ghost r0 = sv(result@);
                    let line = format_row(&pending);
                    result.push(string_of(&line));
                    proof {
                        assert(sv(result@) =~= r0.push(format_row_spec(vv(pending@))));
                    }
                    pending = trim_cells(&cells);
                }
            } else {
                pending = trim_cells(&cells);
                has_pending = true;
            }
        }
        k += 1;
    }
    if has_pending {
        let ghost r0 = sv(result@);
        let line = format_row(&pending);
        result.push(string_of(&line));
        proof {
            assert(sv(result@) =~= r0.push(format_row_spec(vv(pending@))));
        }
    }
    result
}

/// The rows among the first `k` that start a logical row: rows with
/// cells that are the first such row or are no continuation row.
pub open spec fn row_starts(rows: Seq<Seq<char>>, k: int) -> Seq<int>
    decreases k,
{
    if k <= 0 {
        Seq::empty()
    } else {
        let st = row_starts(rows, k - 1);
        if table_cells(rows[k - 1]).len() > 0 && (st.len() == 0 || !continuation_spec(rows[k - 1])) {
            st.push(k - 1)
        } else {
            st
        }
    }
}

/// The logical row that starts at row `s`, taking in the rows before `e`:
/// the trimmed cells of row `s`; each later row that has cells adds the
/// trimmed text of each non-blank cell to the cell of its column, after a
/// space unless that cell is still empty.
pub open spec fn logical_row(rows: Seq<Seq<char>>, s: int, e: int) -> Seq<Seq<char>>
    decreases e - s,
{
    if e <= s + 1 {
        table_cells(rows[s]).map_values(|c: Seq<char>| trim(c))
    } else {
        let g = logical_row(rows, s, e - 1);
        let c = table_cells(rows[e - 1]);
        if c.len() == 0 {
            g
        } else {
            Seq::new(g.len(), |k: int| if k < c.len() && trim(c[k]).len() > 0 {
                if g[k].len() > 0 { g[k] + seq![' '] + trim(c[k]) } else { trim(c[k]) }
            } else {
                g[k]
            })
        }
    }
}

proof fn lemma_unwrap_upto(rows: Seq<Seq<char>>, k: int)
    requires
        0 <= k <= rows.len(),
    ensures
        ({
            let (res, pend) = unwrap_upto(rows, k);
            let st = row_starts(rows, k);
            &&& forall|j: int| 0 <= j < st.len() ==> 0 <= #[trigger] st[j] < k
            &&& forall|j: int, q: int| 0 <= j < q < st.len() ==> #[trigger] st[j] < #[trigger] st[q]
            &&& (st.len() == 0 <==> pend is None)
            &&& st.len() > 0 ==> {
                &&& res.len() == st.len() - 1
                &&& forall|j: int| 0 <= j < st.len() - 1 ==> #[trigger] res[j] == format_row_spec(
                    logical_row(rows, st[j], st[j + 1]),
                )
                &&& pend == Some(logical_row(rows, st[st.len() - 1], k))
            }
            &&& st.len() == 0 ==> res.len() == 0
        }),
    decreases k,
{
    if k > 0 {
        lemma_unwrap_upto(rows, k - 1);
        let (res, pend) = unwrap_upto(rows, k - 1);
        let st = row_starts(rows, k - 1);
        let (res2, pend2) = unwrap_upto(rows, k);
        let st2 = row_starts(rows, k);
        let row = rows[k - 1];
        let cells = table_cells(row);
        if cells.len() == 0 {
            assert(st2 == st);
            if st.len() > 0 {
                assert(logical_row(rows, st[st.len() - 1], k) == logical_row(rows, st[st.len() - 1], k - 1));
            }
        } else {
            match pend {
                Some(p) => if continuation_spec(row) {
                    assert(st2 == st);
                    let g = logical_row(rows, st[st.len() - 1], k - 1);
                    let a = logical_row(rows, st[st.len() - 1], k);
                    let b = merge_cells(g, cells);
                    assert forall|q: int| 0 <= q < a.len() implies a[q] =~= b[q] by {}
                    assert(a =~= b);
                } else {
                    assert(st2 == st.push(k - 1));
                    assert(res2 == res.push(format_row_spec(p)));
                    assert forall|j: int| 0 <= j < st2.len() - 1 implies #[trigger] res2[j] == format_row_spec(
                        logical_row(rows, st2[j], st2[j + 1]),
                    ) by {
                        if j < st.len() - 1 {
                            assert(res2[j] == res[j]);
                            assert(st2[j] == st[j] && st2[j + 1] == st[j + 1]);
                        } else {
                            assert(st2[j] == st[j] && st2[j + 1] == k - 1);
                        }
                    }
                    assert(logical_row(rows, k - 1, k) == trimmed_cells(cells));
                },
                None => {
                    assert(st2 == st.push(k - 1));
                    assert(logical_row(rows, k - 1, k) == trimmed_cells(cells));
                },
            }
        }
    }
}

/// Unwrapping keeps every logical row: without a code fence or a link left
/// open across rows, the output has one row per row that starts a logical
/// row (a row with cells that is the first one or no continuation row), in
/// order, and the `j`-th output row is the `j`-th such row's trimmed cells
/// with the cells of the rows up to the next such row merged in.
pub proof fn law_unwrap_keeps_every_row(rows: Seq<Seq<char>>)
    requires
        !(exists|k: int| 0 <= k < rows.len() && fence_in(#[trigger] rows[k])),
        !incomplete_link_spec(rows),
    ensures
        ({
            let st = row_starts(rows, rows.len() as int);
            let out = unwrap_spec(rows);
            &&& out.len() == st.len()
            &&& forall|j: int| 0 <= j < st.len() ==> #[trigger] out[j] == format_row_spec(
                logical_row(rows, st[j], if j + 1 < st.len() { st[j + 1] } else { rows.len() as int }),
            )
        }),
{
    let n = rows.len() as int;
    lemma_unwrap_upto(rows, n);
    let st = row_starts(rows, n);
    let (res, pend) = unwrap_upto(rows, n);
    if rows.len() > 0 {
        let out = unwrap_spec(rows);
        if st.len() > 0 {
            assert(out == res.push(format_row_spec(pend->0)));
            assert forall|j: int| 0 <= j < st.len() implies #[trigger] out[j] == format_row_spec(
                logical_row(rows, st[j], if j + 1 < st.len() { st[j + 1] } else { rows.len() as int }),
            ) by {
                if j < st.len() - 1 {
                    assert(out[j] == res[j]);
                }
            }
        }
    }
}

} // verus!
