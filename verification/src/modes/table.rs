//! Table utilities for Markdown table normalization.
//!
//! Pipe-delimited tables are detected, parsed (without splitting at a `|`
//! inside a link URL) and re-emitted with aligned columns.

use vstd::prelude::*;

use crate::links::{detect_links, inside_link_url, is_inside_link_url, links_from, links_view};
use crate::tables::{pipe_bounded, split_on, split_char, table_row_spec, vv};
use crate::text::{byte_len, chars_of, join_lines, string_of, trim, trim_vec, append_chars};

verus! {

/// Check if a line is a table row (starts with |, ends with |).
pub fn is_table_row(line: &str) -> (b: bool)
    ensures
        b == table_row_spec(line@),
{
    let t = trim_vec(&chars_of(line));
    t.len() > 0 && t[0] == '|' && t[t.len() - 1] == '|'
}

/// Every character is `-` or `:`.
pub open spec fn dash_colon(s: Seq<char>) -> bool {
    forall|i: int| 0 <= i < s.len() ==> s[i] == '-' || s[i] == ':'
}

/// The pieces from `k` on, up to the first empty one, trim to dashes and
/// colons.
pub open spec fn sep_cells_ok(parts: Seq<Seq<char>>, k: int) -> bool
    decreases parts.len() - k,
{
    if k >= parts.len() || k < 0 {
        true
    } else if parts[k].len() == 0 {
        true
    } else {
        dash_colon(trim(parts[k])) && sep_cells_ok(parts, k + 1)
    }
}

/// A separator row: pipe-bounded, and the cells up to the first empty
/// piece hold only dashes and colons (after trimming).
pub open spec fn separator_spec(line: Seq<char>) -> bool {
    let t = trim(line);
    pipe_bounded(t) && sep_cells_ok(split_on(t, '|').skip(1), 0)
}

/// Check if a line is a table separator (pipes and dashes only).
pub fn is_table_separator(line: &str) -> (b: bool)
    ensures
        b == separator_spec(line@),
{
    let t = trim_vec(&chars_of(line));
    if !(t.len() > 0 && t[0] == '|' && t[t.len() - 1] == '|') {
        return false;
    }
    let all = split_char(&t, '|');
    let ghost parts = vv(all@).skip(1);
    assert(all@.len() == vv(all@).len());
    let mut k: usize = 1;
    while k < all.len()
        invariant
            1 <= k <= all@.len(),
            parts == vv(all@).skip(1),
            parts == split_on(trim(line@), '|').skip(1),
            pipe_bounded(trim(line@)),
            sep_cells_ok(parts, 0) == sep_cells_ok(parts, k - 1),
        decreases all@.len() - k,
    {
        proof {
            assert(parts[k - 1] == all@[k as int]@);
        }
        if all[k].len() == 0 {
            return true;
        }
        let c = trim_vec(&all[k]);
        let mut ok = true;
        let mut j: usize = 0;
        while j < c.len()
            invariant
                j <= c@.len(),
                ok == forall|q: int| 0 <= q < j ==> c@[q] == '-' || c@[q] == ':',
            decreases c@.len() - j,
        {
            if !(c[j] == '-' || c[j] == ':') {
                ok = false;
            }
            j += 1;
        }
        proof {
            assert(ok == dash_colon(c@));
            assert(c@ == trim(parts[k - 1]));
        }
        if !ok {
            return false;
        }
        k += 1;
    }
    true
}

/// Cells and the cell being read after the first `k` characters of a
/// trimmed row; a `|` inside a link URL is cell content.
pub open spec fn row_cells_upto(t: Seq<char>, links: Seq<crate::links::LinkV>, k: int) -> (Seq<Seq<char>>, Seq<char>, bool)
    decreases k,
{
    if k <= 0 {
        (Seq::empty(), Seq::empty(), false)
    } else {
        let (cells, cur, in_cell) = row_cells_upto(t, links, k - 1);
        let ch = t[k - 1];
        if ch == '|' {
            if inside_link_url(k - 1, links) {
                (cells, cur.push(ch), in_cell)
            } else if in_cell {
                (cells.push(trim(cur)), Seq::empty(), true)
            } else {
                (cells, cur, true)
            }
        } else if in_cell {
            (cells, cur.push(ch), in_cell)
        } else {
            (cells, cur, in_cell)
        }
    }
}

/// The cells of a table row, trimmed, with `|` inside link URLs kept; none
/// for a line that is not a row, or that has no cell.
pub open spec fn parse_row_spec(row: Seq<char>) -> Option<Seq<Seq<char>>> {
    let t = trim(row);
    if !pipe_bounded(t) {
        None
    } else {
        let cells = row_cells_upto(t, links_from(t, 0), t.len() as int).0;
        if cells.len() == 0 {
            None
        } else {
            Some(cells)
        }
    }
}

/// The views of strings.
pub open spec fn strs_view(v: Seq<String>) -> Seq<Seq<char>> {
    v.map_values(|s: String| s@)
}

/// Parse a table row into cells.
///
/// This function is link-aware and will not split on `|` characters that appear
/// inside markdown link URLs.
pub fn parse_table_row(row: &str) -> (r: Option<Vec<String>>)
    ensures
        r is Some <==> parse_row_spec(row@) is Some,
        r matches Some(c) ==> strs_view(c@) == parse_row_spec(row@)->0,
{
    let t = trim_vec(&chars_of(row));
    if !(t.len() > 0 && t[0] == '|' && t[t.len() - 1] == '|') {
        return None;
    }
    let ts = string_of(&t);
    let links = detect_links(ts.as_str());
    let ghost lv = links_view(links@);
    let mut cells: Vec<String> = Vec::new();
    let mut current: Vec<char> = Vec::new();
    let mut in_cell = false;
    let mut pos: usize = 0;
    while pos < t.len()
        invariant
            pos <= t@.len(),
            ts@ == t@,
            lv == links_view(links@),
            lv == links_from(t@, 0),
            row_cells_upto(t@, lv, pos as int) == (strs_view(cells@), current@, in_cell),
        decreases t@.len() - pos,
    {
        let ch = t[pos];
        let ghost c0 = strs_view(cells@);
        if ch == '|' {
            if is_inside_link_url(ts.as_str(), pos, links.as_slice()) {
                current.push(ch);
            } else {
                if in_cell {
                    let cell = string_of(&trim_vec(&current));
                    cells.push(cell);
                    proof {
                        assert(strs_view(cells@) =~= c0.push(cells@[cells@.len() - 1]@));
                    }
                    current = Vec::new();
                }
                in_cell = true;
            }
        } else if in_cell {
            current.push(ch);
        }
        pos += 1;
    }
    if cells.len() == 0 {
        None
    } else {
        Some(cells)
    }
}

/// Column width: the largest byte length of the column's cell in the
/// header and in the first `k` data rows that have that column.
pub open spec fn col_width(headers: Seq<Seq<char>>, data: Seq<Seq<Seq<char>>>, i: int, k: int) -> int
    decreases k,
{
    if k <= 0 {
        byte_len(headers[i]) as int
    } else {
        let w = col_width(headers, data, i, k - 1);
        let row = data[k - 1];
        if i < row.len() && byte_len(row[i]) > w {
            byte_len(row[i]) as int
        } else {
            w
        }
    }
}

/// The text left-aligned in a field of `w` characters (never cut).
pub open spec fn pad(s: Seq<char>, w: int) -> Seq<char> {
    if s.len() < w {
        s + Seq::new((w - s.len()) as nat, |i: int| ' ')
    } else {
        s
    }
}

/// ` cell |` for the first `n` cells, each padded to its column's width.
pub open spec fn cells_line(cells: Seq<Seq<char>>, widths: Seq<int>, n: int) -> Seq<char>
    decreases n,
{
    if n <= 0 {
        Seq::empty()
    } else {
        cells_line(cells, widths, n - 1) + seq![' '] + pad(cells[n - 1], widths[n - 1]) + seq![' ', '|']
    }
}

/// `-` + dashes + `-|` for the first `n` columns.
pub open spec fn dashes_line(widths: Seq<int>, n: int) -> Seq<char>
    decreases n,
{
    if n <= 0 {
        Seq::empty()
    } else {
        dashes_line(widths, n - 1) + seq!['-'] + Seq::new(widths[n - 1] as nat, |i: int| '-') + seq!['-', '|']
    }
}

/// The formatted table from parsed header and data rows.
pub open spec fn format_table(headers: Seq<Seq<char>>, data: Seq<Seq<Seq<char>>>) -> Seq<char> {
    let widths = Seq::new(headers.len(), |i: int| col_width(headers, data, i, data.len() as int));
    let head = seq!['|'] + cells_line(headers, widths, headers.len() as int);
    let sep = seq!['\n', '|'] + dashes_line(widths, headers.len() as int);
    head + sep + data_lines(data, widths, data.len() as int)
}

/// The data rows, each on a new line, cells beyond the header's dropped.
pub open spec fn data_lines(data: Seq<Seq<Seq<char>>>, widths: Seq<int>, k: int) -> Seq<char>
    decreases k,
{
    if k <= 0 {
        Seq::empty()
    } else {
        let row = data[k - 1];
        let n = if row.len() < widths.len() { row.len() as int } else { widths.len() as int };
        data_lines(data, widths, k - 1) + seq!['\n', '|'] + cells_line(row, widths, n)
    }
}

/// The parsed data rows of the first `k` rows, if all of them parse.
pub open spec fn parse_rows(rows: Seq<Seq<char>>, k: int) -> Option<Seq<Seq<Seq<char>>>>
    decreases k,
{
    if k <= 0 {
        Some(Seq::empty())
    } else {
        match parse_rows(rows, k - 1) {
            Some(d) => match parse_row_spec(rows[k - 1]) {
                Some(c) => Some(d.push(c)),
                None => None,
            },
            None => None,
        }
    }
}

/// The table `normalize_table` produces, if the header and every row parse.
pub open spec fn normalize_table_spec(header: Seq<char>, rows: Seq<Seq<char>>) -> Option<Seq<char>> {
    match parse_row_spec(header) {
        Some(h) => match parse_rows(rows, rows.len() as int) {
            Some(d) => Some(format_table(h, d)),
            None => None,
        },
        None => None,
    }
}

fn pad_into(out: &mut Vec<char>, s: &Vec<char>, w: u128)
    ensures
        final(out)@ == old(out)@ + pad(s@, w as int),
{
    append_chars(out, s);
    let ghost o1 = out@;
    if (s.len() as u128) < w {
        let n = w - s.len() as u128;
        let mut i: u128 = 0;
        while i < n
            invariant
                i <= n,
                out@ == o1 + Seq::new(i as nat, |k: int| ' '),
            decreases n - i,
        {
            out.push(' ');
            i += 1;
            proof {
                assert(out@ =~= o1 + Seq::new(i as nat, |k: int| ' '));
            }
        }
        proof {
            assert(o1 + Seq::new(i as nat, |k: int| ' ') =~= old(out)@ + pad(s@, w as int));
        }
    } else {
        proof {
            assert(out@ =~= old(out)@ + pad(s@, w as int));
        }
    }
}

/// Parse and normalize a table.
///
/// The header and every data row are parsed; if any fails, there is no
/// table. Each column is as wide as the longest (in bytes) of its header
/// and data cells; cells are padded with spaces to that width (counted in
/// characters), and the separator row is rebuilt from dashes.
pub fn normalize_table(header: &str, _separator: &str, rows: &[&str]) -> (r: Option<String>)
    ensures
        r is Some <==> normalize_table_spec(header@, rows@.map_values(|s: &str| s@)) is Some,
        r matches Some(t) ==> t@ == normalize_table_spec(header@, rows@.map_values(|s: &str| s@))->0,
{
    let ghost rv = rows@.map_values(|s: &str| s@);
    let headers = match parse_table_row(header) {
        Some(h) => h,
        None => return None,
    };
    let ghost hv = strs_view(headers@);
    let mut data: Vec<Vec<String>> = Vec::new();
    let mut k: usize = 0;
    while k < rows.len()
        invariant
            k <= rows@.len(),
            rv == rows@.map_values(|s: &str| s@),
            parse_rows(rv, k as int) == Some(data@.map_values(|r: Vec<String>| strs_view(r@))),
        decreases rows@.len() - k,
    {
        let ghost d0 = data@.map_values(|r: Vec<String>| strs_view(r@));
        proof {
            assert(rv[k as int] == rows@[k as int]@);
        }
        match parse_table_row(rows[k]) {
            Some(cells) => {
                data.push(cells);
                proof {
                    assert(data@.map_values(|r: Vec<String>| strs_view(r@)) =~= d0.push(strs_view(data@[data@.len() - 1]@)));
                }
            },
            None => {
                proof {
                    assert(parse_rows(rv, rows@.len() as int) is None) by {
                        lemma_parse_rows_none(rv, k + 1, rows@.len() as int);
                    }
                }
                return None;
            },
        }
        k += 1;
    }
    proof {
        assert(rv.len() == rows@.len());
    }
    let ghost dv = data@.map_values(|r: Vec<String>| strs_view(r@));
    let ghost widths_s = Seq::new(hv.len(), |i: int| col_width(hv, dv, i, dv.len() as int));
    // column widths
    let mut widths: Vec<u128> = Vec::new();
    let mut i: usize = 0;
    while i < headers.len()
        invariant
            i <= headers@.len(),
            hv == strs_view(headers@),
            dv == data@.map_values(|r: Vec<String>| strs_view(r@)),
            widths_s == Seq::new(hv.len(), |i: int| col_width(hv, dv, i, dv.len() as int)),
            widths@.len() == i,
            forall|q: int| 0 <= q < i ==> #[trigger] widths@[q] as int == widths_s[q],
        decreases headers@.len() - i,
    {
        let hc = chars_of(headers[i].as_str());
        let mut w = crate::fences::byte_len_wide(&hc);
        proof {
            assert(hv[i as int] == hc@);
        }
        let mut r: usize = 0;
        while r < data.len()
            invariant
                r <= data@.len(),
                i < headers@.len(),
                hv == strs_view(headers@),
                dv == data@.map_values(|r: Vec<String>| strs_view(r@)),
                w as int == col_width(hv, dv, i as int, r as int),
            decreases data@.len() - r,
        {
            proof {
                assert(dv[r as int] == strs_view(data@[r as int]@));
            }
            if i < data[r].len() {
                let cc = chars_of(data[r][i].as_str());
                let b = crate::fences::byte_len_wide(&cc);
                proof {
                    assert(dv[r as int][i as int] == cc@);
                }
                if b > w {
                    w = b;
                }
            }
            r += 1;
        }
        widths.push(w);
        i += 1;
    }
    let mut out: Vec<char> = Vec::new();
    out.push('|');
    let mut i: usize = 0;
    while i < headers.len()
        invariant
            i <= headers@.len(),
            hv == strs_view(headers@),
            widths@.len() == headers@.len(),
            forall|q: int| 0 <= q < headers@.len() ==> #[trigger] widths@[q] as int == widths_s[q],
            widths_s.len() == hv.len(),
            out@ == seq!['|'] + cells_line(hv, widths_s, i as int),
        decreases headers@.len() - i,
    {
        out.push(' ');
        let hc = chars_of(headers[i].as_str());
        proof {
            assert(hv[i as int] == hc@);
        }
        pad_into(&mut out, &hc, widths[i]);
        out.push(' ');
        out.push('|');
        proof {
            assert(out@ =~= seq!['|'] + cells_line(hv, widths_s, i + 1));
        }
        i += 1;
    }
    let ghost head = out@;
    out.push('\n');
    out.push('|');
    let mut i: usize = 0;
    while i < headers.len()
        invariant
            i <= headers@.len(),
            widths@.len() == headers@.len(),
            forall|q: int| 0 <= q < headers@.len() ==> #[trigger] widths@[q] as int == widths_s[q],
            out@ == head + seq!['\n', '|'] + dashes_line(widths_s, i as int),
        decreases headers@.len() - i,
    {
        out.push('-');
        let w = widths[i];
        let ghost o1 = out@;
        let mut j: u128 = 0;
        while j < w
            invariant
                j <= w,
                out@ == o1 + Seq::new(j as nat, |k: int| '-'),
            decreases w - j,
        {
            out.push('-');
            j += 1;
            proof {
                assert(out@ =~= o1 + Seq::new(j as nat, |k: int| '-'));
            }
        }
        out.push('-');
        out.push('|');
        proof {
            assert(out@ =~= head + seq!['\n', '|'] + dashes_line(widths_s, i + 1));
        }
        i += 1;
    }
    let ghost head2 = out@;
    let mut r: usize = 0;
    while r < data.len()
        invariant
            r <= data@.len(),
            dv == data@.map_values(|r: Vec<String>| strs_view(r@)),
            widths@.len() == headers@.len(),
            widths_s.len() == headers@.len(),
            forall|q: int| 0 <= q < headers@.len() ==> #[trigger] widths@[q] as int == widths_s[q],
            out@ == head2 + data_lines(dv, widths_s, r as int),
        decreases data@.len() - r,
    {
        let row = &data[r];
        proof {
            assert(dv[r as int] == strs_view(row@));
        }
        let ghost o0 = out@;
        out.push('\n');
        out.push('|');
        let n = if row.len() < widths.len() { row.len() } else { widths.len() };
        let mut i: usize = 0;
        while i < n
            invariant
                i <= n <= row@.len(),
                n <= widths@.len(),
                widths@.len() == widths_s.len(),
                forall|q: int| 0 <= q < widths@.len() ==> #[trigger] widths@[q] as int == widths_s[q],
                out@ == o0 + seq!['\n', '|'] + cells_line(strs_view(row@), widths_s, i as int),
            decreases n - i,
        {
            out.push(' ');
            let cc = chars_of(row[i].as_str());
            pad_into(&mut out, &cc, widths[i]);
            out.push(' ');
            out.push('|');
            proof {
                assert(strs_view(row@)[i as int] == cc@);
                assert(out@ =~= o0 + seq!['\n', '|'] + cells_line(strs_view(row@), widths_s, i + 1));
            }
            i += 1;
        }
        proof {
            assert(out@ =~= head2 + data_lines(dv, widths_s, r + 1));
        }
        r += 1;
    }
    proof {
        assert(out@ =~= format_table(hv, dv));
    }
    Some(string_of(&out))
}

proof fn lemma_parse_rows_none(rows: Seq<Seq<char>>, k: int, n: int)
    requires
        0 < k <= n,
        parse_rows(rows, k) is None,
    ensures
        parse_rows(rows, n) is None,
    decreases n - k,
{
    if k < n {
        lemma_parse_rows_none(rows, k, n - 1);
    }
}

/// The pieces written one after another.
pub open spec fn joined_pieces(ps: Seq<Seq<char>>) -> Seq<char>
    decreases ps.len(),
{
    if ps.len() == 0 {
        Seq::empty()
    } else {
        ps[0] + joined_pieces(ps.drop_first())
    }
}

/// A row of a laid-out table: `|`, then for each of the first `n` cells a
/// space, the cell padded to its column's width, a space and `|`.
pub open spec fn row_text(cells: Seq<Seq<char>>, widths: Seq<int>, n: int) -> Seq<char> {
    seq!['|'] + joined_pieces(cell_pieces(cells, widths, n))
}

/// ` cell |` for each of the first `n` cells, the cell followed by spaces
/// up to its column's width (counted in characters).
pub open spec fn cell_pieces(cells: Seq<Seq<char>>, widths: Seq<int>, n: int) -> Seq<Seq<char>> {
    Seq::new(n as nat, |i: int| seq![' '] + cells[i] + Seq::new(
        (if cells[i].len() < widths[i] { widths[i] - cells[i].len() } else { 0 }) as nat,
        |j: int| ' ',
    ) + seq![' ', '|'])
}

/// `-` + dashes + `-|` for each of the first `n` columns.
pub open spec fn dash_pieces(widths: Seq<int>, n: int) -> Seq<Seq<char>> {
    Seq::new(n as nat, |i: int| seq!['-'] + Seq::new(widths[i] as nat, |j: int| '-') + seq!['-', '|'])
}

/// The separator row of a laid-out table: `|`, then for each of the first
/// `n` columns as many dashes as its width plus two, and `|`.
pub open spec fn dash_text(widths: Seq<int>, n: int) -> Seq<char> {
    seq!['|'] + joined_pieces(dash_pieces(widths, n))
}

/// The lines of the table laid out with the given column widths: the
/// header row, the separator, then one row per data row with the cells
/// beyond the header's dropped.
pub open spec fn table_lines(headers: Seq<Seq<char>>, data: Seq<Seq<Seq<char>>>, widths: Seq<int>) -> Seq<Seq<char>> {
    seq![row_text(headers, widths, headers.len() as int), dash_text(widths, headers.len() as int)] + Seq::new(
        data.len(),
        |k: int| row_text(data[k], widths, if data[k].len() < headers.len() { data[k].len() as int } else { headers.len() as int }),
    )
}

proof fn lemma_pieces_push(ps: Seq<Seq<char>>, x: Seq<char>)
    ensures
        joined_pieces(ps.push(x)) == joined_pieces(ps) + x,
    decreases ps.len(),
{
    if ps.len() == 0 {
        assert(ps.push(x).drop_first() =~= Seq::<Seq<char>>::empty());
        assert(joined_pieces(Seq::<Seq<char>>::empty()) == Seq::<char>::empty());
        assert(joined_pieces(ps.push(x)) =~= x);
        assert(joined_pieces(ps) + x =~= x);
    } else {
        lemma_pieces_push(ps.drop_first(), x);
        assert(ps.push(x).drop_first() =~= ps.drop_first().push(x));
        assert(joined_pieces(ps.push(x)) =~= joined_pieces(ps) + x);
    }
}

proof fn lemma_cells_line(cells: Seq<Seq<char>>, widths: Seq<int>, n: int)
    requires
        0 <= n,
    ensures
        cells_line(cells, widths, n) == joined_pieces(cell_pieces(cells, widths, n)),
        seq!['|'] + cells_line(cells, widths, n) == row_text(cells, widths, n),
    decreases n,
{
    if n == 0 {
        assert(cell_pieces(cells, widths, n) =~= Seq::<Seq<char>>::empty());
        assert(joined_pieces(Seq::<Seq<char>>::empty()) == Seq::<char>::empty());
        assert(seq!['|'] + cells_line(cells, widths, n) =~= row_text(cells, widths, n));
    } else {
        lemma_cells_line(cells, widths, n - 1);
        let x = seq![' '] + pad(cells[n - 1], widths[n - 1]) + seq![' ', '|'];
        assert(x =~= cell_pieces(cells, widths, n)[n - 1]);
        assert(cell_pieces(cells, widths, n) =~= cell_pieces(cells, widths, n - 1).push(x));
        lemma_pieces_push(cell_pieces(cells, widths, n - 1), x);
        assert(cells_line(cells, widths, n) =~= joined_pieces(cell_pieces(cells, widths, n)));
        assert(seq!['|'] + cells_line(cells, widths, n) =~= row_text(cells, widths, n));
    }
}

proof fn lemma_dashes_line(widths: Seq<int>, n: int)
    requires
        0 <= n,
    ensures
        dashes_line(widths, n) == joined_pieces(dash_pieces(widths, n)),
        seq!['|'] + dashes_line(widths, n) == dash_text(widths, n),
    decreases n,
{
    if n == 0 {
        assert(dash_pieces(widths, n) =~= Seq::<Seq<char>>::empty());
        assert(joined_pieces(Seq::<Seq<char>>::empty()) == Seq::<char>::empty());
        assert(seq!['|'] + dashes_line(widths, n) =~= dash_text(widths, n));
    } else {
        lemma_dashes_line(widths, n - 1);
        let x = seq!['-'] + Seq::new(widths[n - 1] as nat, |j: int| '-') + seq!['-', '|'];
        assert(dash_pieces(widths, n) =~= dash_pieces(widths, n - 1).push(x));
        lemma_pieces_push(dash_pieces(widths, n - 1), x);
        assert(dashes_line(widths, n) =~= joined_pieces(dash_pieces(widths, n)));
        assert(seq!['|'] + dashes_line(widths, n) =~= dash_text(widths, n));
    }
}

proof fn lemma_data_lines(headers: Seq<Seq<char>>, data: Seq<Seq<Seq<char>>>, widths: Seq<int>, k: int)
    requires
        0 <= k <= data.len(),
        widths.len() == headers.len(),
    ensures
        join_lines(table_lines(headers, data, widths).take(k + 2)) == join_lines(
            table_lines(headers, data, widths).take(2),
        ) + data_lines(data, widths, k),
    decreases k,
{
    let t = table_lines(headers, data, widths);
    if k == 0 {
        assert(join_lines(t.take(2)) + data_lines(data, widths, 0) =~= join_lines(t.take(2)));
    } else {
        lemma_data_lines(headers, data, widths, k - 1);
        let row = data[k - 1];
        let n = if row.len() < widths.len() { row.len() as int } else { widths.len() as int };
        lemma_cells_line(row, widths, n);
        assert(t.take(k + 2).drop_last() =~= t.take(k + 1));
        assert(t.take(k + 2).last() == t[k + 1]);
        assert(t[k + 1] == row_text(row, widths, n));
        assert(join_lines(t.take(k + 2)) =~= join_lines(t.take(2)) + data_lines(data, widths, k));
    }
}

/// `w` is the byte length of the widest cell of column `i`, over the header
/// and every data row that has that column.
pub open spec fn widest_in_column(headers: Seq<Seq<char>>, data: Seq<Seq<Seq<char>>>, i: int, w: int) -> bool {
    &&& w >= byte_len(headers[i])
    &&& forall|k: int| 0 <= k < data.len() && i < data[k].len() ==> w >= byte_len(#[trigger] data[k][i])
    &&& (w == byte_len(headers[i]) || exists|k: int|
        0 <= k < data.len() && i < data[k].len() && w == byte_len(#[trigger] data[k][i]))
}

proof fn lemma_col_width(headers: Seq<Seq<char>>, data: Seq<Seq<Seq<char>>>, i: int, k: int)
    requires
        0 <= k <= data.len(),
    ensures
        col_width(headers, data, i, k) >= byte_len(headers[i]),
        forall|q: int| 0 <= q < k && i < data[q].len() ==> col_width(headers, data, i, k) >= byte_len(#[trigger] data[q][i]),
        col_width(headers, data, i, k) == byte_len(headers[i]) || exists|q: int|
            0 <= q < k && i < data[q].len() && col_width(headers, data, i, k) == byte_len(#[trigger] data[q][i]),
    decreases k,
{
    if k > 0 {
        lemma_col_width(headers, data, i, k - 1);
        let w = col_width(headers, data, i, k - 1);
        let row = data[k - 1];
        if i < row.len() && byte_len(row[i]) > w {
            assert(col_width(headers, data, i, k) == byte_len(data[k - 1][i]));
        } else {
            if col_width(headers, data, i, k) != byte_len(headers[i]) {
                let q = choose|q: int| 0 <= q < k - 1 && i < data[q].len() && w == byte_len(#[trigger] data[q][i]);
                assert(col_width(headers, data, i, k) == byte_len(data[q][i]));
            }
        }
    }
}

proof fn lemma_parse_rows_some(rows: Seq<Seq<char>>, k: int)
    requires
        0 <= k <= rows.len(),
        parse_rows(rows, k) is Some,
    ensures
        parse_rows(rows, k)->0.len() == k,
        forall|q: int| 0 <= q < k ==> parse_row_spec(#[trigger] rows[q]) == Some(parse_rows(rows, k)->0[q]),
    decreases k,
{
    if k > 0 {
        lemma_parse_rows_some(rows, k - 1);
        let d = parse_rows(rows, k - 1)->0;
        assert forall|q: int| 0 <= q < k implies parse_row_spec(#[trigger] rows[q]) == Some(parse_rows(rows, k)->0[q]) by {
            if q < k - 1 {
                assert(parse_rows(rows, k)->0[q] == d[q]);
            }
        }
    }
}

/// Normalizing a table pads every column to its widest cell: when the
/// header and every row parse, the data rows are the rows' cells in order,
/// and the output's lines are the header row, the separator and one row
/// per data row, laid out with, for each column, the byte length of the
/// widest of its header cell and its data cells. So every cell of a column
/// is padded to the same width, and no cell is wider than its column.
pub proof fn law_table_columns_as_wide_as_widest_cell(header: Seq<char>, rows: Seq<Seq<char>>)
    requires
        normalize_table_spec(header, rows) is Some,
    ensures
        ({
            let h = parse_row_spec(header)->0;
            let d = parse_rows(rows, rows.len() as int)->0;
            &&& d.len() == rows.len()
            &&& forall|q: int| 0 <= q < rows.len() ==> parse_row_spec(#[trigger] rows[q]) == Some(d[q])
            &&& exists|w: Seq<int>|
                w.len() == h.len() && (forall|i: int| 0 <= i < h.len() ==> widest_in_column(h, d, i, #[trigger] w[i]))
                    && normalize_table_spec(header, rows)->0 == join_lines(#[trigger] table_lines(h, d, w))
        }),
{
    let h = parse_row_spec(header)->0;
    let d = parse_rows(rows, rows.len() as int)->0;
    lemma_parse_rows_some(rows, rows.len() as int);
    let w = Seq::new(h.len(), |i: int| col_width(h, d, i, d.len() as int));
    assert forall|i: int| 0 <= i < h.len() implies widest_in_column(h, d, i, #[trigger] w[i]) by {
        lemma_col_width(h, d, i, d.len() as int);
    }
    let t = table_lines(h, d, w);
    lemma_data_lines(h, d, w, d.len() as int);
    lemma_cells_line(h, w, h.len() as int);
    lemma_dashes_line(w, h.len() as int);
    assert(t.take(d.len() + 2int) =~= t);
    assert(t.take(2).drop_last() =~= seq![t[0]]);
    assert(join_lines(seq![t[0]]) == t[0]);
    assert(join_lines(t.take(2)) =~= t[0] + seq!['\n'] + t[1]);
    assert(normalize_table_spec(header, rows)->0 =~= join_lines(t));
}

} // verus!
