//! Safe mode: normalize Markdown tables and lists, leave diagrams untouched.
//!
//! Lists are normalized first (indentation, bullets, a blank line before
//! a list that follows text); then every table (a
//! header row followed by a separator row and the table rows after them)
//! is unwrapped where its cells were hard-wrapped and re-aligned.

use vstd::prelude::*;

use crate::lists::{loose_lists_spec, normalize_lists, normalize_loose_lists, reindent_spec, lines_view};
use crate::modes::table::{is_table_row, is_table_separator, normalize_table, normalize_table_spec, separator_spec};
use crate::tables::{has_wrapped_cells, rows_view, sv, table_row_spec, unwrap_spec, unwrap_table_rows, wrapped_spec};
use crate::text::{chars_of, join_lines, join_lines_vec, lines, split_lines, string_of};

verus! {

/// The first line from `k` on that is no table row (or the end).
pub open spec fn rows_end(ls: Seq<Seq<char>>, k: int) -> int
    decreases ls.len() - k,
{
    if k < 0 || k >= ls.len() || !table_row_spec(ls[k]) {
        k
    } else {
        rows_end(ls, k + 1)
    }
}

proof fn lemma_rows_end(ls: Seq<Seq<char>>, k: int)
    requires
        0 <= k <= ls.len(),
    ensures
        k <= rows_end(ls, k) <= ls.len(),
    decreases ls.len() - k,
{
    if k < ls.len() && table_row_spec(ls[k]) {
        lemma_rows_end(ls, k + 1);
    }
}

/// A table starts at line `i`: a table row followed by a separator row.
pub open spec fn table_at(ls: Seq<Seq<char>>, i: int) -> bool {
    0 <= i && i + 1 < ls.len() && table_row_spec(ls[i]) && separator_spec(ls[i + 1])
}

/// The output pieces for the table at `i`, and the line where the scan
/// goes on. The table is replaced by its normalized form; when its rows
/// are hard-wrapped they are unwrapped first, and when it cannot be parsed
/// its lines stay (unwrapped if they were wrapped). A table that was not
/// wrapped and fails to parse is followed by the scan from its fifth line.
pub open spec fn table_out(ls: Seq<Seq<char>>, i: int) -> (Seq<Seq<char>>, int) {
    let j = rows_end(ls, i + 2);
    let rows = ls.subrange(i + 2, j);
    let head = seq![ls[i], ls[i + 1]];
    if wrapped_spec(join_lines(head + rows)) {
        let un = unwrap_spec(rows);
        match normalize_table_spec(ls[i], un) {
            Some(t) => (seq![t], j),
            None => (head + un, j),
        }
    } else {
        match normalize_table_spec(ls[i], rows) {
            Some(t) => (seq![t], j),
            None => (head + rows, i + 4),
        }
    }
}

/// The output pieces (lines, or whole normalized tables) for the lines from
/// `i` on.
pub open spec fn safe_from(ls: Seq<Seq<char>>, i: int) -> Seq<Seq<char>>
    decreases ls.len() + 4 - i,
{
    if i < 0 || i >= ls.len() {
        Seq::empty()
    } else if table_at(ls, i) {
        let (out, next) = table_out(ls, i);
        if next <= i || next > ls.len() + 4 {
            Seq::empty()
        } else {
            out + safe_from(ls, next)
        }
    } else {
        seq![ls[i]] + safe_from(ls, i + 1)
    }
}

proof fn lemma_safe_from_past_end(ls: Seq<Seq<char>>, i: int)
    requires
        i >= ls.len(),
    ensures
        safe_from(ls, i) == Seq::<Seq<char>>::empty(),
{
}

/// What safe mode makes of a text.
pub open spec fn safe_mode_spec(content: Seq<char>) -> Seq<char> {
    join_lines(safe_from(lines(loose_lists_spec(reindent_spec(content, true))), 0))
}

fn push_str_line(result: &mut Vec<Vec<char>>, s: &str)
    ensures
        lines_view(final(result)@) == lines_view(old(result)@).push(s@),
{
    let ghost before = lines_view(result@);
    result.push(chars_of(s));
    assert(lines_view(result@) =~= before.push(s@));
}

fn refs_of(strings: &Vec<String>) -> (r: Vec<&str>)
    ensures
        rows_view(r@) == sv(strings@),
{
    let mut r: Vec<&str> = Vec::new();
    let mut k: usize = 0;
    while k < strings.len()
        invariant
            k <= strings@.len(),
            rows_view(r@) == sv(strings@).take(k as int),
        decreases strings@.len() - k,
    {
        let ghost before = rows_view(r@);
        let x = strings[k].as_str();
        assert(x@ == sv(strings@)[k as int]);
        r.push(x);
        assert(rows_view(r@) =~= before.push(x@));
        k += 1;
        assert(rows_view(r@) =~= sv(strings@).take(k as int));
    }
    assert(sv(strings@).take(k as int) =~= sv(strings@));
    r
}

/// Emit the table that starts at line `i` (its normalized form, or its
/// lines); returns the line where the scan goes on.
fn emit_table(strs: &Vec<String>, i: usize, result: &mut Vec<Vec<char>>) -> (next: usize)
    requires
        table_at(sv(strs@), i as int),
    ensures
        lines_view(final(result)@) == lines_view(old(result)@) + table_out(sv(strs@), i as int).0,
        i < table_out(sv(strs@), i as int).1 <= strs@.len() + 4,
        i < next <= strs@.len(),
        next == table_out(sv(strs@), i as int).1 || (table_out(sv(strs@), i as int).1 > strs@.len()
            && next == strs@.len()),
{
    let ghost ls = sv(strs@);
    let ghost before = lines_view(result@);
    let n = strs.len();
    assert(strs@[i as int]@ == ls[i as int]);
    assert(strs@[i + 1]@ == ls[i + 1]);
    let header = strs[i].as_str();
    let separator = strs[i + 1].as_str();
    let mut k = i + 2;
    proof { lemma_rows_end(ls, k as int); }
    let mut table_rows: Vec<&str> = Vec::new();
    while k < n && is_table_row(strs[k].as_str())
        invariant
            n == strs@.len(),
            ls == sv(strs@),
            i + 2 <= k <= n,
            rows_view(table_rows@) == ls.subrange(i + 2, k as int),
            rows_end(ls, i + 2) == rows_end(ls, k as int),
        decreases n - k,
    {
        assert(strs@[k as int]@ == ls[k as int]);
        let ghost b = rows_view(table_rows@);
        let x = strs[k].as_str();
        table_rows.push(x);
        assert(rows_view(table_rows@) =~= b.push(x@));
        k += 1;
        assert(rows_view(table_rows@) =~= ls.subrange(i + 2, k as int));
    }
    proof {
        if k < n {
            assert(strs@[k as int]@ == ls[k as int]);
        }
    }
    assert(rows_end(ls, k as int) == k);
    let ghost rows = ls.subrange(i + 2, k as int);
    let ghost head = seq![ls[i as int], ls[i + 1]];
    let mut all_table_lines: Vec<Vec<char>> = Vec::new();
    push_str_line(&mut all_table_lines, header);
    push_str_line(&mut all_table_lines, separator);
    assert(lines_view(all_table_lines@) =~= head);
    let mut q: usize = 0;
    while q < table_rows.len()
        invariant
            q <= table_rows@.len(),
            lines_view(all_table_lines@) == head + rows_view(table_rows@).take(q as int),
        decreases table_rows@.len() - q,
    {
        let ghost b = lines_view(all_table_lines@);
        push_str_line(&mut all_table_lines, table_rows[q]);
        q += 1;
        assert(lines_view(all_table_lines@) =~= head + rows_view(table_rows@).take(q as int));
    }
    assert(rows_view(table_rows@).take(q as int) =~= rows);
    let joined = join_lines_vec(&all_table_lines);
    assert(all_table_lines@.map_values(|l: Vec<char>| l@) =~= head + rows);
    let table_content = string_of(&joined);
    assert(table_rows@.map_values(|s: &str| s@) =~= rows);
    if has_wrapped_cells(table_content.as_str()) {
        let unwrapped_rows = unwrap_table_rows(table_rows.as_slice());
        let unwrapped_refs = refs_of(&unwrapped_rows);
        assert(unwrapped_refs@.map_values(|s: &str| s@) =~= unwrap_spec(rows));
        match normalize_table(header, separator, unwrapped_refs.as_slice()) {
            Some(normalized_table) => {
                push_str_line(result, normalized_table.as_str());
                assert(lines_view(result@) =~= before + seq![normalized_table@]);
            },
            None => {
                push_str_line(result, header);
                push_str_line(result, separator);
                let mut q: usize = 0;
                assert(lines_view(result@) =~= before + head + sv(unwrapped_rows@).take(0));
                while q < unwrapped_rows.len()
                    invariant
                        q <= unwrapped_rows@.len(),
                        lines_view(result@) == before + head + sv(unwrapped_rows@).take(q as int),
                    decreases unwrapped_rows@.len() - q,
                {
                    push_str_line(result, unwrapped_rows[q].as_str());
                    q += 1;
                    assert(lines_view(result@) =~= before + head + sv(unwrapped_rows@).take(q as int));
                }
                assert(sv(unwrapped_rows@).take(q as int) =~= unwrap_spec(rows));
                assert(lines_view(result@) =~= before + (head + unwrap_spec(rows)));
            },
        }
        k
    } else {
        match normalize_table(header, separator, table_rows.as_slice()) {
            Some(normalized_table) => {
                push_str_line(result, normalized_table.as_str());
                assert(lines_view(result@) =~= before + seq![normalized_table@]);
                k
            },
            None => {
                push_str_line(result, header);
                push_str_line(result, separator);
                let mut q: usize = 0;
                assert(lines_view(result@) =~= before + head + rows_view(table_rows@).take(0));
                while q < table_rows.len()
                    invariant
                        q <= table_rows@.len(),
                        lines_view(result@) == before + head + rows_view(table_rows@).take(q as int),
                    decreases table_rows@.len() - q,
                {
                    push_str_line(result, table_rows[q]);
                    q += 1;
                    assert(lines_view(result@) =~= before + head + rows_view(table_rows@).take(q as int));
                }
                assert(lines_view(result@) =~= before + (head + rows));
                if n - i >= 4 {
                    i + 4
                } else {
                    n
                }
            },
        }
    }
}

/// Safe mode: normalize lists and Markdown tables, leave diagrams untouched.
pub fn process_safe_mode(content: &str) -> (r: String)
    ensures
        r@ == safe_mode_spec(content@),
{
    let listed = normalize_lists(content);
    let normalized = normalize_loose_lists(listed.as_str());
    let all_lines = split_lines(&chars_of(normalized.as_str()));
    let ghost ls = lines_view(all_lines@);
    assert(ls =~= lines(loose_lists_spec(reindent_spec(content@, true))));
    let mut strs: Vec<String> = Vec::new();
    let mut k: usize = 0;
    while k < all_lines.len()
        invariant
            k <= all_lines@.len(),
            ls == lines_view(all_lines@),
            sv(strs@) == ls.take(k as int),
        decreases all_lines@.len() - k,
    {
        let ghost b = sv(strs@);
        let x = string_of(&all_lines[k]);
        strs.push(x);
        assert(sv(strs@) =~= b.push(x@));
        k += 1;
        assert(sv(strs@) =~= ls.take(k as int));
    }
    assert(ls.take(k as int) =~= ls);
    let n = strs.len();
    let mut result: Vec<Vec<char>> = Vec::new();
    let mut i: usize = 0;
    while i < n
        invariant
            n == strs@.len(),
            n == ls.len(),
            sv(strs@) == ls,
            i <= n + 4,
            safe_from(ls, 0) == lines_view(result@) + safe_from(ls, i as int),
        decreases n + 4 - i,
    {
        let ghost i0 = i as int;
        let ghost before = lines_view(result@);
        let ghost mut added: Seq<Seq<char>> = Seq::empty();
        assert(strs@[i as int]@ == ls[i as int]);
        if i + 1 < n && is_table_row(strs[i].as_str()) && is_table_separator(strs[i + 1].as_str()) {
            assert(strs@[i + 1]@ == ls[i + 1]);
            let next = emit_table(&strs, i, &mut result);
            proof {
                added = table_out(ls, i0).0;
                if table_out(ls, i0).1 > n {
                    lemma_safe_from_past_end(ls, table_out(ls, i0).1);
                    lemma_safe_from_past_end(ls, next as int);
                }
            }
            i = next;
        } else {
            push_str_line(&mut result, strs[i].as_str());
            i += 1;
            proof { added = seq![ls[i0]]; }
            assert(lines_view(result@) =~= before + added);
        }
        assert(safe_from(ls, i0) == added + safe_from(ls, i as int));
        assert(lines_view(result@) + safe_from(ls, i as int) =~= before + (added + safe_from(ls, i as int)));
    }
    assert(lines_view(result@) + safe_from(ls, i as int) =~= lines_view(result@));
    let joined = join_lines_vec(&result);
    assert(result@.map_values(|l: Vec<char>| l@) =~= lines_view(result@));
    string_of(&joined)
}

} // verus!
