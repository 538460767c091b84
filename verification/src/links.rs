//! Link detection and preservation for Markdown content.
//!
//! This module detects markdown links, especially those with parentheses in URLs,
//! to prevent them from breaking during any reflow or processing operations.

use vstd::prelude::*;

use crate::text::{
    byte_len, chars_of, lines, slice_vec, split_lines, string_of, trim, trim_end,
    trim_end_vec, trim_start, trim_start_vec, trim_vec, lemma_byte_len_bounds,
};
use crate::fences::run_len;

verus! {

/// Represents a detected markdown link.
#[derive(Debug, Clone, PartialEq, Eq)]
pub struct Link {
    /// The link text (content inside square brackets)
    pub text: String,
    /// The URL (content inside parentheses)
    pub url: String,
    /// Start position in the original content
    pub start_pos: usize,
    /// End position in the original content
    pub end_pos: usize,
}

/// Mathematical value of a [`Link`].
pub struct LinkV {
    pub text: Seq<char>,
    pub url: Seq<char>,
    pub start_pos: int,
    pub end_pos: int,
}

impl View for Link {
    type V = LinkV;

    open spec fn view(&self) -> LinkV {
        LinkV {
            text: self.text@,
            url: self.url@,
            start_pos: self.start_pos as int,
            end_pos: self.end_pos as int,
        }
    }
}

impl Link {
    /// An equal copy of the link.
    pub fn copy(&self) -> (r: Link)
        ensures
            r@ == self@,
    {
        Link {
            text: crate::primitives::copy_string(&self.text),
            url: crate::primitives::copy_string(&self.url),
            start_pos: self.start_pos,
            end_pos: self.end_pos,
        }
    }
}

/// The views of links.
pub open spec fn links_view(v: Seq<Link>) -> Seq<LinkV> {
    v.map_values(|l: Link| l@)
}

/// The first `]` from `j` on, skipping a character escaped by a backslash.
pub open spec fn close_bracket(s: Seq<char>, j: int) -> Option<int>
    decreases s.len() - j,
{
    if j >= s.len() || j < 0 {
        None
    } else if s[j] == ']' {
        Some(j)
    } else if s[j] == '\\' && j + 1 < s.len() {
        close_bracket(s, j + 2)
    } else {
        close_bracket(s, j + 1)
    }
}

/// The `)` from `j` on that closes `depth` open parentheses, counting
/// nested ones and skipping a character escaped by a backslash.
pub open spec fn close_paren(s: Seq<char>, j: int, depth: int) -> Option<int>
    decreases s.len() - j,
{
    if j >= s.len() || j < 0 {
        None
    } else if s[j] == '(' {
        close_paren(s, j + 1, depth + 1)
    } else if s[j] == ')' {
        if depth - 1 == 0 {
            Some(j)
        } else {
            close_paren(s, j + 1, depth - 1)
        }
    } else if s[j] == '\\' && j + 1 < s.len() {
        close_paren(s, j + 2, depth)
    } else {
        close_paren(s, j + 1, depth)
    }
}

/// The links found scanning from `i`: `[text](url)` with the `(` right
/// after the `]`; scanning resumes after a link's `)`.
pub open spec fn links_from(s: Seq<char>, i: int) -> Seq<LinkV>
    decreases s.len() - i,
{
    if i >= s.len() || i < 0 {
        Seq::empty()
    } else if s[i] == '[' {
        match close_bracket(s, i + 1) {
            Some(te) => if te + 1 < s.len() && s[te + 1] == '(' {
                match close_paren(s, te + 2, 1) {
                    Some(ue) => if i < ue < s.len() {
                        seq![LinkV { text: s.subrange(i + 1, te), url: s.subrange(te + 2, ue), start_pos: i, end_pos: ue + 1 }]
                            + links_from(s, ue + 1)
                    } else {
                        links_from(s, i + 1)
                    },
                    None => links_from(s, i + 1),
                }
            } else {
                links_from(s, i + 1)
            },
            None => links_from(s, i + 1),
        }
    } else {
        links_from(s, i + 1)
    }
}

proof fn lemma_close_bracket(s: Seq<char>, j: int)
    requires
        0 <= j,
    ensures
        close_bracket(s, j) matches Some(k) ==> j <= k < s.len() && s[k] == ']',
    decreases s.len() - j,
{
    if j < s.len() && s[j] != ']' {
        if s[j] == '\\' && j + 1 < s.len() {
            lemma_close_bracket(s, j + 2);
        } else {
            lemma_close_bracket(s, j + 1);
        }
    }
}

proof fn lemma_close_paren(s: Seq<char>, j: int, depth: int)
    requires
        0 <= j,
    ensures
        close_paren(s, j, depth) matches Some(k) ==> j <= k < s.len(),
    decreases s.len() - j,
{
    if j < s.len() {
        if s[j] == '(' {
            lemma_close_paren(s, j + 1, depth + 1);
        } else if s[j] == ')' {
            if depth - 1 != 0 {
                lemma_close_paren(s, j + 1, depth - 1);
            }
        } else if s[j] == '\\' && j + 1 < s.len() {
            lemma_close_paren(s, j + 2, depth);
        } else {
            lemma_close_paren(s, j + 1, depth);
        }
    }
}

/// Find the closing bracket ']' starting from position.
fn find_closing_bracket(chars: &Vec<char>, start: usize) -> (r: Option<usize>)
    ensures
        r == match close_bracket(chars@, start as int) {
            Some(k) => Some(k as usize),
            None => None::<usize>,
        },
{
    let mut i = start;
    while i < chars.len()
        invariant
            start <= i,
            close_bracket(chars@, start as int) == close_bracket(chars@, i as int),
        decreases chars@.len() - i,
    {
        if chars[i] == ']' {
            return Some(i);
        }
        if chars[i] == '\\' && i + 1 < chars.len() {
            i += 2;
        } else {
            i += 1;
        }
    }
    None
}

/// Find closing parenthesis ')' with balanced counting.
fn find_closing_parenthesis_balanced(chars: &Vec<char>, start: usize) -> (r: Option<usize>)
    ensures
        r == match close_paren(chars@, start as int, 1) {
            Some(k) => Some(k as usize),
            None => None::<usize>,
        },
{
    let mut depth: u128 = 1;
    let mut i = start;
    while i < chars.len()
        invariant
            start <= i,
            1 <= depth <= i - start + 1,
            close_paren(chars@, start as int, 1) == close_paren(chars@, i as int, depth as int),
        decreases chars@.len() - i,
    {
        if chars[i] == '(' {
            depth += 1;
        } else if chars[i] == ')' {
            if depth - 1 == 0 {
                return Some(i);
            }
            depth -= 1;
        } else if chars[i] == '\\' && i + 1 < chars.len() {
            i += 1;
        }
        i += 1;
    }
    None
}

/// Detect all inline markdown links in content.
///
/// Handles links with balanced parentheses in URLs, such as
/// `[text](https://example.com/path(1))`. Positions are character indices.
pub fn detect_links(content: &str) -> (links: Vec<Link>)
    ensures
        links_view(links@) == links_from(content@, 0),
{
    let chars = chars_of(content);
    let ghost s = chars@;
    let mut links: Vec<Link> = Vec::new();
    let mut i: usize = 0;
    while i < chars.len()
        invariant
            i <= chars@.len(),
            s == chars@,
            links_view(links@) + links_from(s, i as int) == links_from(s, 0),
        decreases chars@.len() - i,
    {
        let ghost before = links_view(links@);
        let mut found = false;
        if chars[i] == '[' {
            let start_pos = i;
            proof {
                lemma_close_bracket(s, i + 1);
            }
            match find_closing_bracket(&chars, i + 1) {
                Some(text_end) => {
                    if text_end + 1 < chars.len() && chars[text_end + 1] == '(' {
                        proof {
                            lemma_close_paren(s, text_end + 2, 1);
                        }
                        match find_closing_parenthesis_balanced(&chars, text_end + 2) {
                            Some(url_end) => {
                                let text = string_of(&slice_vec(&chars, i + 1, text_end));
                                let url = string_of(&slice_vec(&chars, text_end + 2, url_end));
                                links.push(Link { text, url, start_pos, end_pos: url_end + 1 });
                                proof {
                                    assert(links_view(links@) =~= before.push(links@[links@.len() - 1]@));
                                    assert(links_view(links@) + links_from(s, url_end + 1) =~= before
                                        + links_from(s, i as int));
                                }
                                i = url_end + 1;
                                found = true;
                            },
                            None => {},
                        }
                    }
                },
                None => {},
            }
        }
        if !found {
            i += 1;
        }
    }
    proof {
        assert(links_view(links@) + links_from(s, i as int) =~= links_view(links@));
    }
    links
}

/// The position lies in the URL of one of the links: from the link's start
/// plus the bytes of its text plus two (for `](`), to its end.
pub open spec fn inside_link_url(pos: int, links: Seq<LinkV>) -> bool {
    exists|k: int|
        0 <= k < links.len() && (#[trigger] links[k]).start_pos + byte_len(links[k].text) + 2 <= pos
            < links[k].end_pos
}

/// Check if a position in content is inside any link URL.
///
/// This is useful for table parsing to avoid splitting on `|` characters
/// that appear inside link URLs.
pub fn is_inside_link_url(_content: &str, pos: usize, links: &[Link]) -> (b: bool)
    ensures
        b == inside_link_url(pos as int, links_view(links@)),
{
    let ghost lv = links_view(links@);
    let mut k: usize = 0;
    while k < links.len()
        invariant
            k <= links@.len(),
            lv == links_view(links@),
            forall|q: int| 0 <= q < k ==> !((#[trigger] lv[q]).start_pos + byte_len(lv[q].text) + 2 <= pos < lv[q].end_pos),
        decreases links@.len() - k,
    {
        let link = &links[k];
        proof {
            assert(lv[k as int] == link@);
        }
        let text = chars_of(link.text.as_str());
        let bytes = crate::fences::byte_len_wide(&text);
        let _n = text.len();
        proof {
            lemma_byte_len_bounds(text@);
        }
        let url_start = link.start_pos as u128 + bytes + 2;
        let url_end = link.end_pos as u128;
        if pos as u128 >= url_start && (pos as u128) < url_end {
            return true;
        }
        k += 1;
    }
    false
}

// ---------------------------------------------------------------------------
// Code block regions
// ---------------------------------------------------------------------------

/// A trimmed line that is a code fence: at least three bytes, starting with
/// a run of backticks (or tildes) of three or more after which that
/// character does not occur again.
pub open spec fn fence_line_spec(t: Seq<char>) -> bool {
    if byte_len(t) < 3 {
        false
    } else if t.len() >= 3 && t[0] == '`' && t[1] == '`' && t[2] == '`' {
        !t.skip(run_len(t, '`') as int).contains('`')
    } else if t.len() >= 3 && t[0] == '~' && t[1] == '~' && t[2] == '~' {
        !t.skip(run_len(t, '~') as int).contains('~')
    } else {
        false
    }
}

/// Scanning state after the first `k` lines: inside a block, where the
/// block started, the byte position of the next line, and the regions.
pub open spec fn regions_upto(ls: Seq<Seq<char>>, k: int) -> (bool, int, int, Seq<(int, int)>)
    decreases k,
{
    if k <= 0 {
        (false, 0, 0, Seq::empty())
    } else {
        let (inb, bs, pos, rs) = regions_upto(ls, k - 1);
        let line = ls[k - 1];
        let le = pos + byte_len(line);
        if fence_line_spec(trim(line)) {
            if inb {
                (false, bs, le + 1, rs.push((bs, le)))
            } else {
                (true, pos, le + 1, rs)
            }
        } else {
            (inb, bs, le + 1, rs)
        }
    }
}

/// The code block regions of a text as byte ranges: from the start of an
/// opening fence line to the end of its closing fence line, or to the end
/// of the text when unclosed.
pub open spec fn code_regions(content: Seq<char>) -> Seq<(int, int)> {
    let ls = lines(content);
    let (inb, bs, pos, rs) = regions_upto(ls, ls.len() as int);
    if inb {
        rs.push((bs, byte_len(content) as int))
    } else {
        rs
    }
}

/// The position lies in one of the regions.
pub open spec fn in_code_region(pos: int, regions: Seq<(int, int)>) -> bool {
    exists|k: int| 0 <= k < regions.len() && (#[trigger] regions[k]).0 <= pos < regions[k].1
}

fn run_of(t: &Vec<char>, ch: char) -> (n: usize)
    ensures
        n == run_len(t@, ch),
        n <= t@.len(),
{
    let mut n: usize = 0;
    while n < t.len() && t[n] == ch
        invariant
            n <= t@.len(),
            forall|j: int| 0 <= j < n ==> t@[j] == ch,
        decreases t@.len() - n,
    {
        n += 1;
    }
    proof {
        lemma_run_len_exact(t@, ch, n as int);
    }
    n
}

proof fn lemma_run_len_exact(s: Seq<char>, ch: char, n: int)
    requires
        0 <= n <= s.len(),
        forall|j: int| 0 <= j < n ==> s[j] == ch,
        n == s.len() || s[n] != ch,
    ensures
        run_len(s, ch) == n,
    decreases n,
{
    if n > 0 {
        assert forall|j: int| 0 <= j < n - 1 implies s.drop_first()[j] == ch by {
            assert(s.drop_first()[j] == s[j + 1]);
        }
        if n < s.len() {
            assert(s.drop_first()[n - 1] == s[n]);
        }
        lemma_run_len_exact(s.drop_first(), ch, n - 1);
    }
}

fn contains_char(v: &Vec<char>, from: usize, ch: char) -> (b: bool)
    requires
        from <= v@.len(),
    ensures
        b == v@.skip(from as int).contains(ch),
{
    let mut i = from;
    while i < v.len()
        invariant
            from <= i <= v@.len(),
            forall|j: int| from <= j < i ==> v@[j] != ch,
        decreases v@.len() - i,
    {
        if v[i] == ch {
            assert(v@.skip(from as int)[i - from] == ch);
            return true;
        }
        i += 1;
    }
    proof {
        if v@.skip(from as int).contains(ch) {
            let k = choose|k: int| 0 <= k < v@.skip(from as int).len() && v@.skip(from as int)[k] == ch;
            assert(v@[from + k] == ch);
        }
    }
    false
}

/// Check if a trimmed line is a code fence marker (triple backtick or tilde).
fn is_fence_line(t: &Vec<char>) -> (b: bool)
    ensures
        b == fence_line_spec(t@),
{
    if crate::fences::byte_len_wide(t) < 3 {
        return false;
    }
    if t.len() >= 3 && t[0] == '`' && t[1] == '`' && t[2] == '`' {
        let n = run_of(t, '`');
        return !contains_char(t, n, '`');
    }
    if t.len() >= 3 && t[0] == '~' && t[1] == '~' && t[2] == '~' {
        let n = run_of(t, '~');
        return !contains_char(t, n, '~');
    }
    false
}

/// Get all code block regions as byte ranges.
fn get_code_block_regions(content: &str) -> (r: Vec<(u128, u128)>)
    ensures
        r@.map_values(|p: (u128, u128)| (p.0 as int, p.1 as int)) == code_regions(content@),
{
    let chars = chars_of(content);
    let ls = split_lines(&chars);
    let ghost lv = lines(content@);
    let _n = chars.len();
    proof {
        lemma_lines_bytes(content@);
        lemma_byte_len_bounds(content@);
    }
    let mut regions: Vec<(u128, u128)> = Vec::new();
    let mut in_code_block = false;
    let mut block_start_pos: u128 = 0;
    let mut current_pos: u128 = 0;
    let mut k: usize = 0;
    while k < ls.len()
        invariant
            k <= ls@.len(),
            ls@.len() == lv.len(),
            forall|q: int| 0 <= q < ls@.len() ==> (#[trigger] ls@[q])@ == lv[q],
            regions_upto(lv, k as int) == (in_code_block, block_start_pos as int, current_pos as int,
                regions@.map_values(|p: (u128, u128)| (p.0 as int, p.1 as int))),
            current_pos == lines_pos(lv, k as int),
            lines_pos(lv, lv.len() as int) <= byte_len(content@) + 1,
            byte_len(content@) <= 4 * content@.len(),
            content@.len() <= usize::MAX,
            block_start_pos <= current_pos,
        decreases ls@.len() - k,
    {
        let line = &ls[k];
        proof {
            assert(lv[k as int] == line@);
        }
        let bytes = crate::fences::byte_len_wide(line);
        proof {
            lemma_lines_pos_mono(lv, k + 1, lv.len() as int);
            lemma_regions_pos(lv, k + 1);
            lemma_regions_pos(lv, k as int);
        }
        let line_start = current_pos;
        let line_end = current_pos + bytes;
        let ghost before = regions@.map_values(|p: (u128, u128)| (p.0 as int, p.1 as int));
        let trimmed = trim_vec(line);
        if is_fence_line(&trimmed) {
            if in_code_block {
                regions.push((block_start_pos, line_end));
                in_code_block = false;
                proof {
                    assert(regions@.map_values(|p: (u128, u128)| (p.0 as int, p.1 as int)) =~= before.push((block_start_pos as int, line_end as int)));
                }
            } else {
                in_code_block = true;
                block_start_pos = line_start;
            }
        }
        current_pos = line_end + 1;
        k += 1;
    }
    if in_code_block {
        let total = crate::fences::byte_len_wide(&chars);
        let ghost before = regions@.map_values(|p: (u128, u128)| (p.0 as int, p.1 as int));
        regions.push((block_start_pos, total));
        proof {
            assert(regions@.map_values(|p: (u128, u128)| (p.0 as int, p.1 as int)) =~= before.push((block_start_pos as int, total as int)));
        }
    }
    regions
}

/// The inline links of a text outside its code block regions (a link whose
/// start position, a character index, falls in a region's byte range is
/// dropped).
pub open spec fn links_outside_spec(content: Seq<char>) -> Seq<LinkV> {
    links_from(content, 0).filter(|l: LinkV| !in_code_region(l.start_pos, code_regions(content)))
}

/// Detect inline links that are outside of code blocks.
pub fn detect_links_outside_code_blocks(content: &str) -> (r: Vec<Link>)
    ensures
        links_view(r@) == links_outside_spec(content@),
{
    let all_links = detect_links(content);
    let regions = get_code_block_regions(content);
    let ghost rv = code_regions(content@);
    let ghost lv = links_view(all_links@);
    let ghost pred = |l: LinkV| !in_code_region(l.start_pos, code_regions(content@));
    let mut r: Vec<Link> = Vec::new();
    let mut i: usize = 0;
    while i < all_links.len()
        invariant
            i <= all_links@.len(),
            lv == links_view(all_links@),
            rv == code_regions(content@),
            rv == regions@.map_values(|p: (u128, u128)| (p.0 as int, p.1 as int)),
            pred == (|l: LinkV| !in_code_region(l.start_pos, code_regions(content@))),
            links_view(r@) == lv.take(i as int).filter(pred),
        decreases all_links@.len() - i,
    {
        let link = &all_links[i];
        proof {
            assert(lv[i as int] == link@);
        }
        let pos = link.start_pos as u128;
        let mut inside = false;
        let mut q: usize = 0;
        while q < regions.len()
            invariant
                q <= regions@.len(),
                rv == regions@.map_values(|p: (u128, u128)| (p.0 as int, p.1 as int)),
                inside == exists|j: int| 0 <= j < q && (#[trigger] rv[j]).0 <= pos < rv[j].1,
            decreases regions@.len() - q,
        {
            if pos >= regions[q].0 && pos < regions[q].1 {
                inside = true;
                assert(rv[q as int].0 <= pos < rv[q as int].1);
            }
            q += 1;
        }
        let ghost before = links_view(r@);
        proof {
            reveal(Seq::filter);
            assert(lv.take(i + 1).drop_last() =~= lv.take(i as int));
            assert(lv.take(i + 1).last() == lv[i as int]);
            assert(rv.len() == regions@.len());
            if in_code_region(lv[i as int].start_pos, rv) {
                let j = choose|j: int| 0 <= j < rv.len() && (#[trigger] rv[j]).0 <= lv[i as int].start_pos < rv[j].1;
                assert(rv[j].0 <= pos < rv[j].1);
            }
            assert(inside == in_code_region(lv[i as int].start_pos, rv));
        }
        if !inside {
            r.push(link.copy());
            proof {
                assert(links_view(r@) =~= before.push(lv[i as int]));
            }
        }
        i += 1;
    }
    proof {
        assert(lv.take(i as int) =~= lv);
    }
    r
}

/// Bytes up to the start of line `k`, counting one byte per line break.
pub open spec fn lines_pos(ls: Seq<Seq<char>>, k: int) -> int
    decreases k,
{
    if k <= 0 {
        0
    } else {
        lines_pos(ls, k - 1) + byte_len(ls[k - 1]) + 1
    }
}

proof fn lemma_regions_pos(ls: Seq<Seq<char>>, k: int)
    requires
        0 <= k,
    ensures
        regions_upto(ls, k).2 == lines_pos(ls, k),
    decreases k,
{
    if k > 0 {
        lemma_regions_pos(ls, k - 1);
    }
}

proof fn lemma_lines_pos_mono(ls: Seq<Seq<char>>, k: int, n: int)
    requires
        0 <= k <= n,
    ensures
        lines_pos(ls, k) <= lines_pos(ls, n),
    decreases n - k,
{
    if k < n {
        lemma_lines_pos_mono(ls, k, n - 1);
    }
}

proof fn lemma_lines_pos_push(ls: Seq<Seq<char>>, x: Seq<char>, k: int)
    requires
        0 <= k <= ls.len(),
    ensures
        lines_pos(ls.push(x), k) == lines_pos(ls, k),
    decreases k,
{
    if k > 0 {
        lemma_lines_pos_push(ls, x, k - 1);
        assert(ls.push(x)[k - 1] == ls[k - 1]);
    }
}

proof fn lemma_split_bytes(s: Seq<char>)
    ensures
        lines_pos(crate::text::split_state(s).0, crate::text::split_state(s).0.len() as int) + byte_len(
            crate::text::split_state(s).1,
        ) <= byte_len(s),
    decreases s.len(),
{
    if s.len() > 0 {
        let p = s.drop_last();
        lemma_split_bytes(p);
        let (done, cur) = crate::text::split_state(p);
        if s.last() == '\n' {
            let l = crate::text::strip_cr(cur);
            if cur.len() > 0 && cur.last() == '\r' {
                assert(l == cur.drop_last());
            }
            lemma_lines_pos_push(done, l, done.len() as int);
        } else {
            assert(cur.push(s.last()).drop_last() =~= cur);
        }
    }
}

proof fn lemma_lines_bytes(s: Seq<char>)
    ensures
        lines_pos(lines(s), lines(s).len() as int) <= byte_len(s) + 1,
{
    lemma_split_bytes(s);
    let (done, cur) = crate::text::split_state(s);
    if cur.len() > 0 {
        lemma_lines_pos_push(done, cur, done.len() as int);
    }
}

// ---------------------------------------------------------------------------
// Reference links
// ---------------------------------------------------------------------------

/// Represents a reference-style link definition.
#[derive(Debug, Clone, PartialEq, Eq)]
pub struct ReferenceLink {
    /// The reference label (e.g., "ref" in `[ref]: url`)
    pub label: String,
    /// The URL
    pub url: String,
    /// Optional title (e.g., `[ref]: url "title"`)
    pub title: Option<String>,
}

/// Mathematical value of a [`ReferenceLink`].
pub struct ReferenceLinkV {
    pub label: Seq<char>,
    pub url: Seq<char>,
    pub title: Option<Seq<char>>,
}

impl View for ReferenceLink {
    type V = ReferenceLinkV;

    open spec fn view(&self) -> ReferenceLinkV {
        ReferenceLinkV { label: self.label@, url: self.url@, title: crate::fences::opt_view(self.title) }
    }
}

/// The first `]` from `j` on that does not follow a backslash.
pub open spec fn uclose_from(s: Seq<char>, j: int) -> Option<int>
    decreases s.len() - j,
{
    if j >= s.len() || j < 0 {
        None
    } else if s[j] == ']' && !(j > 0 && s[j - 1] == '\\') {
        Some(j)
    } else {
        uclose_from(s, j + 1)
    }
}

/// Index of the last `ch`.
pub open spec fn last_index_of(s: Seq<char>, ch: char) -> Option<int>
    decreases s.len(),
{
    if s.len() == 0 {
        None
    } else if s.last() == ch {
        Some(s.len() - 1)
    } else {
        last_index_of(s.drop_last(), ch)
    }
}

/// Index of the last ` (`.
pub open spec fn last_space_paren(s: Seq<char>) -> Option<int>
    decreases s.len(),
{
    if s.len() < 2 {
        None
    } else if s[s.len() - 2] == ' ' && s[s.len() - 1] == '(' {
        Some(s.len() - 2)
    } else {
        last_space_paren(s.drop_last())
    }
}

/// A title in quotes at the end of `s`, with the URL before it.
pub open spec fn quoted_title(s: Seq<char>, q: char) -> Option<(Seq<char>, Seq<char>)> {
    match last_index_of(s, q) {
        Some(qp) => if byte_len(trim(s.skip(qp + 1))) < 2 && trim_end(s.take(qp)).len() > 0 {
            match last_index_of(s.take(qp), q) {
                Some(ts) => if s.subrange(ts + 1, qp).len() > 0 {
                    Some((trim_end(s.take(ts)), s.subrange(ts + 1, qp)))
                } else {
                    None
                },
                None => None,
            }
        } else {
            None
        },
        None => None,
    }
}

/// A title in parentheses after a space at the end of `s`, with the URL
/// before it.
pub open spec fn paren_title(s: Seq<char>) -> Option<(Seq<char>, Seq<char>)> {
    match last_space_paren(s) {
        Some(li) => {
            let tp = s.skip(li + 1);
            match last_index_of(tp, ')') {
                Some(ri) => if trim(tp.skip(ri + 1)).len() == 0 && ri > 0 && tp.subrange(1, ri).len() > 0
                    && !tp.subrange(1, ri).contains('\n') {
                    Some((trim_end(s.take(li)), tp.subrange(1, ri)))
                } else {
                    None
                },
                None => None,
            }
        },
        None => None,
    }
}

/// The URL and optional title of a definition: a `"` title, else a `'`
/// title, else a `(` title, else the whole trimmed text is the URL.
pub open spec fn url_and_title(s: Seq<char>) -> Option<(Seq<char>, Option<Seq<char>>)> {
    let t = trim(s);
    if t.len() == 0 {
        None
    } else {
        match quoted_title(t, '"') {
            Some((u, ti)) => Some((u, Some(ti))),
            None => match quoted_title(t, '\'') {
                Some((u, ti)) => Some((u, Some(ti))),
                None => match paren_title(t) {
                    Some((u, ti)) => Some((u, Some(ti))),
                    None => Some((t, None)),
                },
            },
        }
    }
}

/// Where the label of a definition line ends: at the first `]` after the
/// first `[` that does not follow a backslash, when `]:` starts there.
pub open spec fn ref_label_end(t: Seq<char>) -> Option<int> {
    match crate::fences::first_index_of(t, '[') {
        Some(ci) => match uclose_from(t, ci + 1) {
            Some(ce) => if crate::text::starts_with(t.skip(ce), seq![']', ':']) {
                Some(ce)
            } else {
                None
            },
            None => None,
        },
        None => None,
    }
}

/// The reference definition on a line: `[label]: url`, `[label]: url "t"`,
/// `[label]: url 't'` or `[label]: url (t)`, with a non-empty label.
pub open spec fn ref_line_spec(line: Seq<char>) -> Option<ReferenceLinkV> {
    let t = trim(line);
    match ref_label_end(t) {
        Some(ce) => {
            let ci = crate::fences::first_index_of(t, '[')->0;
            let label = trim(t.subrange(ci + 1, ce));
            if label.len() == 0 {
                None
            } else {
                match url_and_title(trim_start(t.skip(ce + 2))) {
                    Some((u, ti)) => Some(ReferenceLinkV { label, url: u, title: ti }),
                    None => None,
                }
            }
        },
        None => None,
    }
}

/// The definitions found on the first `k` lines.
pub open spec fn refs_upto(ls: Seq<Seq<char>>, k: int) -> Seq<ReferenceLinkV>
    decreases k,
{
    if k <= 0 {
        Seq::empty()
    } else {
        match ref_line_spec(ls[k - 1]) {
            Some(r) => refs_upto(ls, k - 1).push(r),
            None => refs_upto(ls, k - 1),
        }
    }
}

proof fn lemma_last_index_of(s: Seq<char>, ch: char)
    ensures
        last_index_of(s, ch) matches Some(i) ==> 0 <= i < s.len() && s[i] == ch,
    decreases s.len(),
{
    if s.len() > 0 && s.last() != ch {
        lemma_last_index_of(s.drop_last(), ch);
    }
}

proof fn lemma_last_space_paren(s: Seq<char>)
    ensures
        last_space_paren(s) matches Some(i) ==> 0 <= i && i + 1 < s.len(),
    decreases s.len(),
{
    if s.len() >= 2 && !(s[s.len() - 2] == ' ' && s[s.len() - 1] == '(') {
        lemma_last_space_paren(s.drop_last());
    }
}

fn last_index_exec(s: &Vec<char>, ch: char) -> (r: Option<usize>)
    ensures
        r matches Some(i) ==> last_index_of(s@, ch) == Some(i as int) && i < s@.len(),
        r is None ==> last_index_of(s@, ch) is None,
{
    let mut n = s.len();
    proof {
        assert(s@.take(s@.len() as int) =~= s@);
        lemma_last_index_of(s@, ch);
    }
    while n > 0 && s[n - 1] != ch
        invariant
            n <= s@.len(),
            last_index_of(s@, ch) == last_index_of(s@.take(n as int), ch),
        decreases n,
    {
        proof {
            assert(s@.take(n as int).drop_last() =~= s@.take(n - 1));
        }
        n -= 1;
    }
    proof {
        assert(s@.take(s@.len() as int) =~= s@);
    }
    if n == 0 {
        None
    } else {
        proof {
            assert(s@.take(n as int).last() == s@[n - 1]);
        }
        Some(n - 1)
    }
}

fn last_space_paren_exec(s: &Vec<char>) -> (r: Option<usize>)
    ensures
        r matches Some(i) ==> last_space_paren(s@) == Some(i as int) && i + 1 < s@.len(),
        r is None ==> last_space_paren(s@) is None,
{
    let mut n = s.len();
    proof {
        assert(s@.take(s@.len() as int) =~= s@);
        lemma_last_space_paren(s@);
    }
    while n >= 2 && !(s[n - 2] == ' ' && s[n - 1] == '(')
        invariant
            n <= s@.len(),
            last_space_paren(s@) == last_space_paren(s@.take(n as int)),
        decreases n,
    {
        proof {
            assert(s@.take(n as int).drop_last() =~= s@.take(n - 1));
        }
        n -= 1;
    }
    if n < 2 {
        None
    } else {
        Some(n - 2)
    }
}

fn parse_quoted_title(s: &Vec<char>, q: char) -> (r: Option<(Vec<char>, Vec<char>)>)
    ensures
        r is Some <==> quoted_title(s@, q) is Some,
        r matches Some(p) ==> p.0@ == (quoted_title(s@, q)->0).0 && p.1@ == (quoted_title(s@, q)->0).1,
{
    let n = s.len();
    match last_index_exec(s, q) {
        Some(qp) => {
            let after = slice_vec(s, qp + 1, n);
            let before = slice_vec(s, 0, qp);
            proof {
                assert(after@ =~= s@.skip(qp + 1));
                assert(before@ =~= s@.take(qp as int));
            }
            let at = trim_vec(&after);
            let bt = trim_end_vec(&before);
            if crate::fences::byte_len_wide(&at) < 2 && bt.len() > 0 {
                match last_index_exec(&before, q) {
                    Some(ts) => {
                        let title = slice_vec(s, ts + 1, qp);
                        if title.len() > 0 {
                            let url = trim_end_vec(&slice_vec(s, 0, ts));
                            proof {
                                assert(s@.take(qp as int).take(ts as int) =~= s@.take(ts as int));
                                assert(s@.subrange(0, ts as int) =~= s@.take(ts as int));
                            }
                            Some((url, title))
                        } else {
                            None
                        }
                    },
                    None => None,
                }
            } else {
                None
            }
        },
        None => None,
    }
}

fn contains_char_all(v: &Vec<char>, ch: char) -> (b: bool)
    ensures
        b == v@.contains(ch),
{
    let r = contains_char(v, 0, ch);
    proof {
        assert(v@.skip(0) =~= v@);
    }
    r
}

fn parse_parenthesized_title(s: &Vec<char>) -> (r: Option<(Vec<char>, Vec<char>)>)
    ensures
        r is Some <==> paren_title(s@) is Some,
        r matches Some(p) ==> p.0@ == (paren_title(s@)->0).0 && p.1@ == (paren_title(s@)->0).1,
{
    let n = s.len();
    match last_space_paren_exec(s) {
        Some(li) => {
            let tp = slice_vec(s, li + 1, n);
            proof {
                assert(tp@ =~= s@.skip(li + 1));
            }
            match last_index_exec(&tp, ')') {
                Some(ri) => {
                    let after = slice_vec(&tp, ri + 1, tp.len());
                    proof {
                        assert(after@ =~= tp@.skip(ri + 1));
                    }
                    let at = trim_vec(&after);
                    if at.len() == 0 && ri > 0 {
                        let title = slice_vec(&tp, 1, ri);
                        if title.len() > 0 && !contains_char_all(&title, '\n') {
                            let url = trim_end_vec(&slice_vec(s, 0, li));
                            proof {
                                assert(s@.subrange(0, li as int) =~= s@.take(li as int));
                            }
                            Some((url, title))
                        } else {
                            None
                        }
                    } else {
                        None
                    }
                },
                None => None,
            }
        },
        None => None,
    }
}

fn parse_url_and_title(s: &Vec<char>) -> (r: Option<(String, Option<String>)>)
    ensures
        r is Some <==> url_and_title(s@) is Some,
        r matches Some(p) ==> p.0@ == (url_and_title(s@)->0).0 && crate::fences::opt_view(p.1) == (url_and_title(s@)->0).1,
{
    let t = trim_vec(s);
    if t.len() == 0 {
        return None;
    }
    match parse_quoted_title(&t, '"') {
        Some((u, ti)) => { return Some((string_of(&u), Some(string_of(&ti)))); },
        None => {},
    }
    match parse_quoted_title(&t, '\'') {
        Some((u, ti)) => { return Some((string_of(&u), Some(string_of(&ti)))); },
        None => {},
    }
    match parse_parenthesized_title(&t) {
        Some((u, ti)) => { return Some((string_of(&u), Some(string_of(&ti)))); },
        None => {},
    }
    Some((string_of(&t), None))
}

proof fn lemma_uclose_from(s: Seq<char>, j: int)
    ensures
        uclose_from(s, j) matches Some(k) ==> j <= k < s.len() && 0 <= k && s[k] == ']',
    decreases s.len() - j,
{
    if 0 <= j < s.len() && !(s[j] == ']' && !(j > 0 && s[j - 1] == '\\')) {
        lemma_uclose_from(s, j + 1);
    }
}

/// Parse a single reference link definition line.
fn parse_reference_line(line: &Vec<char>) -> (r: Option<ReferenceLink>)
    ensures
        match (r, ref_line_spec(line@)) {
            (Some(x), Some(y)) => x@ == y,
            (None, None) => true,
            _ => false,
        },
{
    let t = trim_vec(line);
    let ghost tv = t@;
    let mut ci: usize = 0;
    while ci < t.len() && t[ci] != '['
        invariant
            ci <= t@.len(),
            forall|j: int| 0 <= j < ci ==> t@[j] != '[',
        decreases t@.len() - ci,
    {
        ci += 1;
    }
    proof {
        crate::fences::lemma_first_index_of(tv, '[');
    }
    if ci == t.len() {
        return None;
    }
    proof {
        assert(crate::fences::first_index_of(tv, '[') == Some(ci as int));
    }
    let mut ce: usize = ci + 1;
    while ce < t.len() && !(t[ce] == ']' && t[ce - 1] != '\\')
        invariant
            ci < ce <= t@.len(),
            uclose_from(tv, ci + 1) == uclose_from(tv, ce as int),
            tv == t@,
        decreases t@.len() - ce,
    {
        ce += 1;
    }
    if ce == t.len() {
        return None;
    }
    proof {
        lemma_uclose_from(tv, ci + 1);
        assert(uclose_from(tv, ci + 1) == Some(ce as int));
    }
    let tail = slice_vec(&t, ce, t.len());
    proof {
        assert(tail@ =~= tv.skip(ce as int));
    }
    let colon: Vec<char> = vec![']', ':'];
    if !crate::text::starts_with_vec(&tail, &colon) {
        return None;
    }
    let label = trim_vec(&slice_vec(&t, ci + 1, ce));
    if label.len() == 0 {
        return None;
    }
    proof {
        assert(tail@.len() >= 2);
    }
    let after = trim_start_vec(&slice_vec(&t, ce + 2, t.len()));
    proof {
        assert(t@.subrange(ce + 2, t@.len() as int) =~= tv.skip(ce + 2));
    }
    match parse_url_and_title(&after) {
        Some((url, title)) => Some(ReferenceLink { label: string_of(&label), url, title }),
        None => None,
    }
}

/// The views of reference links.
pub open spec fn refs_view(v: Seq<ReferenceLink>) -> Seq<ReferenceLinkV> {
    v.map_values(|r: ReferenceLink| r@)
}

/// Detect all reference-style link definitions in content, one per line at
/// most.
pub fn detect_reference_links(content: &str) -> (refs: Vec<ReferenceLink>)
    ensures
        refs_view(refs@) == refs_upto(lines(content@), lines(content@).len() as int),
{
    let ls = split_lines(&chars_of(content));
    let ghost lv = lines(content@);
    let mut refs: Vec<ReferenceLink> = Vec::new();
    let mut k: usize = 0;
    while k < ls.len()
        invariant
            k <= ls@.len(),
            ls@.len() == lv.len(),
            lv == lines(content@),
            forall|q: int| 0 <= q < ls@.len() ==> (#[trigger] ls@[q])@ == lv[q],
            refs_view(refs@) == refs_upto(lv, k as int),
        decreases ls@.len() - k,
    {
        proof {
            assert(lv[k as int] == ls@[k as int]@);
        }
        let ghost before = refs_view(refs@);
        match parse_reference_line(&ls[k]) {
            Some(r) => {
                refs.push(r);
                proof {
                    assert(refs_view(refs@) =~= before.push(refs@[refs@.len() - 1]@));
                }
            },
            None => {},
        }
        k += 1;
    }
    refs
}

} // verus!
