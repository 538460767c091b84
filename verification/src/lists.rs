//! List normalization for Markdown lists.
//!
//! Lists are detected line by line (bullet items `-`, `*`, `+`, task items
//! `- [ ]` / `- [x]`, ordered items `1.` / `1)`), lists inside fenced code
//! blocks are left alone, and nested items are re-indented by two spaces
//! per level.

use vstd::prelude::*;

use crate::text::{
    split_state, append_chars, byte_len, chars_of, count_lead_ws, ends_cr, is_blank, is_blank_vec, is_ws,
    join_lines, join_lines_vec, lead_ws, lines, rejoinable, slice_vec, split_lines, starts_with,
    string_of, trail_ws, trim, trim_end, trim_start, trim_start_vec, trim_vec,
};
use crate::fences::byte_len_wide;

verus! {

/// Represents a detected list item.
#[derive(Debug, Clone, PartialEq, Eq)]
pub struct ListItem {
    /// The bullet character (-, *, +) or number for ordered lists
    pub marker: String,
    /// The content of the list item (after the bullet)
    pub content: String,
    /// Indentation level (0 = top level, 1 = nested, etc.)
    pub level: usize,
    /// Whether this is a task list item (- [ ], - [x])
    pub is_task: bool,
    /// Checkbox state for task lists (Some(true) = checked, Some(false) = unchecked, None = not a task)
    pub checked: Option<bool>,
    /// The line number where this item starts
    pub line_number: usize,
}

/// A list item as plain values.
pub struct ListItemV {
    pub marker: Seq<char>,
    pub content: Seq<char>,
    pub level: nat,
    pub is_task: bool,
    pub checked: Option<bool>,
    pub line_number: nat,
}

impl View for ListItem {
    type V = ListItemV;

    open spec fn view(&self) -> ListItemV {
        ListItemV {
            marker: self.marker@,
            content: self.content@,
            level: self.level as nat,
            is_task: self.is_task,
            checked: self.checked,
            line_number: self.line_number as nat,
        }
    }
}

/// Represents a complete list.
#[derive(Debug, Clone, PartialEq, Eq)]
pub struct List {
    /// All items in the list
    pub items: Vec<ListItem>,
    /// The starting line number of the list
    pub start_line: usize,
    /// The ending line number of the list
    pub end_line: usize,
    /// Whether this is an ordered (numbered) list
    pub is_ordered: bool,
}

/// A list as plain values.
pub struct ListV {
    pub items: Seq<ListItemV>,
    pub start_line: nat,
    pub end_line: nat,
    pub is_ordered: bool,
}

pub open spec fn items_view(v: Seq<ListItem>) -> Seq<ListItemV> {
    v.map_values(|x: ListItem| x@)
}

impl View for List {
    type V = ListV;

    open spec fn view(&self) -> ListV {
        ListV {
            items: items_view(self.items@),
            start_line: self.start_line as nat,
            end_line: self.end_line as nat,
            is_ordered: self.is_ordered,
        }
    }
}

pub open spec fn lists_view(v: Seq<List>) -> Seq<ListV> {
    v.map_values(|x: List| x@)
}

// ---------------------------------------------------------------------
// Item syntax
// ---------------------------------------------------------------------

pub open spec fn is_digit(c: char) -> bool {
    '0' <= c && c <= '9'
}

/// The end of the run of ASCII digits that starts at `k`.
pub open spec fn digits_end(t: Seq<char>, k: int) -> int
    decreases t.len() - k,
{
    if 0 <= k < t.len() && is_digit(t[k]) {
        digits_end(t, k + 1)
    } else {
        k
    }
}

/// The text starts with `c` and a space.
pub open spec fn starts2(t: Seq<char>, c: char) -> bool {
    t.len() >= 2 && t[0] == c && t[1] == ' '
}

pub open spec fn plain_item(marker: Seq<char>, content: Seq<char>, n: nat) -> ListItemV {
    ListItemV { marker, content, level: 0, is_task: false, checked: None, line_number: n }
}

pub open spec fn box_prefix(mark: char) -> Seq<char> {
    seq!['[', mark, ']', ' ']
}

/// A `-` item: a task item when its text, trimmed at the start, opens with
/// `[ ] `, `[x] ` or `[X] `; otherwise a plain item with the text as is.
pub open spec fn task_or_item_spec(marker: Seq<char>, content: Seq<char>, n: nat) -> ListItemV {
    let t = trim_start(content);
    if starts_with(t, box_prefix(' ')) {
        ListItemV { marker, content: t.skip(4), level: 0, is_task: true, checked: Some(false), line_number: n }
    } else if starts_with(t, box_prefix('x')) || starts_with(t, box_prefix('X')) {
        ListItemV { marker, content: t.skip(4), level: 0, is_task: true, checked: Some(true), line_number: n }
    } else {
        plain_item(marker, content, n)
    }
}

/// The list item on a line, if the line (trimmed at the start) opens with
/// `- `, `* `, `+ `, or digits followed by `.` or `)`.
pub open spec fn item_spec(line: Seq<char>, n: nat) -> Option<ListItemV> {
    let t = trim_start(line);
    if starts2(t, '-') {
        Some(task_or_item_spec(seq!['-'], t.skip(2), n))
    } else if starts2(t, '*') {
        Some(plain_item(seq!['*'], t.skip(2), n))
    } else if starts2(t, '+') {
        Some(plain_item(seq!['+'], t.skip(2), n))
    } else if t.len() > 0 && is_digit(t[0]) {
        let e = digits_end(t, 0);
        if e < t.len() && (t[e] == '.' || t[e] == ')') {
            Some(plain_item(t.take(e), trim_start(t.skip(e + 1)), n))
        } else {
            None
        }
    } else {
        None
    }
}

pub open spec fn item_opt_view(o: Option<ListItem>) -> Option<ListItemV> {
    match o {
        Some(x) => Some(x@),
        None => None,
    }
}

proof fn lemma_digits_end(t: Seq<char>, k: int)
    requires
        0 <= k <= t.len(),
    ensures
        k <= digits_end(t, k) <= t.len(),
        forall|j: int| k <= j < digits_end(t, k) ==> is_digit(#[trigger] t[j]),
        digits_end(t, k) < t.len() ==> !is_digit(t[digits_end(t, k)]),
    decreases t.len() - k,
{
    if k < t.len() && is_digit(t[k]) {
        lemma_digits_end(t, k + 1);
    }
}

/// The text opens with the checkbox `[mark] `.
fn has_box(t: &Vec<char>, mark: char) -> (b: bool)
    ensures
        b == starts_with(t@, box_prefix(mark)),
{
    let b = t.len() >= 4 && t[0] == '[' && t[1] == mark && t[2] == ']' && t[3] == ' ';
    proof {
        if t@.len() >= 4 {
            if b {
                assert(t@.take(4) =~= box_prefix(mark));
            } else {
                assert(t@.take(4) != box_prefix(mark)) by {
                    if t@.take(4) == box_prefix(mark) {
                        assert(t@.take(4)[0] == '[' && t@.take(4)[1] == mark);
                        assert(t@.take(4)[2] == ']' && t@.take(4)[3] == ' ');
                    }
                }
            }
        }
    }
    b
}

fn item_of(marker: char, content: Vec<char>, line_number: usize) -> (r: ListItem)
    ensures
        r@ == plain_item(seq![marker], content@, line_number as nat),
{
    let mut m: Vec<char> = Vec::new();
    m.push(marker);
    assert(m@ =~= seq![marker]);
    ListItem {
        marker: string_of(&m),
        content: string_of(&content),
        level: 0,
        is_task: false,
        checked: None,
        line_number,
    }
}

/// Check if content is a task list item and parse accordingly.
fn parse_task_or_item(content: &Vec<char>, line_number: usize) -> (r: ListItem)
    ensures
        r@ == task_or_item_spec(seq!['-'], content@, line_number as nat),
{
    let t = trim_start_vec(content);
    let unchecked = has_box(&t, ' ');
    let checked_lower = has_box(&t, 'x');
    let checked_upper = has_box(&t, 'X');
    if unchecked || checked_lower || checked_upper {
        let rest = slice_vec(&t, 4, t.len());
        let mut item = item_of('-', rest, line_number);
        item.is_task = true;
        item.checked = Some(!unchecked);
        assert(rest@ =~= t@.skip(4));
        item
    } else {
        item_of('-', content.clone(), line_number)
    }
}

/// Parse a single line to see if it's a list item.
fn parse_list_item(line: &Vec<char>, line_number: usize) -> (r: Option<ListItem>)
    ensures
        item_opt_view(r) == item_spec(line@, line_number as nat),
{
    let t = trim_start_vec(line);
    if t.len() >= 2 && t[1] == ' ' && (t[0] == '-' || t[0] == '*' || t[0] == '+') {
        let rest = slice_vec(&t, 2, t.len());
        assert(rest@ =~= t@.skip(2));
        if t[0] == '-' {
            return Some(parse_task_or_item(&rest, line_number));
        }
        return Some(item_of(t[0], rest, line_number));
    }
    if t.len() > 0 && '0' <= t[0] && t[0] <= '9' {
        proof { lemma_digits_end(t@, 0); }
        let mut e: usize = 0;
        while e < t.len() && '0' <= t[e] && t[e] <= '9'
            invariant
                e <= t@.len(),
                digits_end(t@, e as int) == digits_end(t@, 0),
            decreases t@.len() - e,
        {
            e += 1;
        }
        if e < t.len() && (t[e] == '.' || t[e] == ')') {
            let number = slice_vec(&t, 0, e);
            let after = slice_vec(&t, e + 1, t.len());
            let rest = trim_start_vec(&after);
            assert(number@ =~= t@.take(e as int));
            assert(after@ =~= t@.skip(e + 1));
            return Some(ListItem {
                marker: string_of(&number),
                content: string_of(&rest),
                level: 0,
                is_task: false,
                checked: None,
                line_number,
            });
        }
    }
    None
}

// ---------------------------------------------------------------------
// Markers
// ---------------------------------------------------------------------

/// The number that a run of ASCII digits spells.
pub open spec fn digits_value(s: Seq<char>) -> nat
    decreases s.len(),
{
    if s.len() == 0 {
        0
    } else {
        (digits_value(s.drop_last()) * 10 + (s.last() as int - '0' as int)) as nat
    }
}

pub open spec fn all_digits(s: Seq<char>) -> bool {
    forall|i: int| 0 <= i < s.len() ==> is_digit(#[trigger] s[i])
}

/// `str::parse::<i32>` succeeds: an optional `+` or `-`, then at least one
/// ASCII digit, with the value within `i32`.
pub open spec fn parses_as_i32(s: Seq<char>) -> bool {
    if s.len() > 0 && s[0] == '-' {
        let d = s.skip(1);
        d.len() > 0 && all_digits(d) && digits_value(d) <= 2147483648
    } else if s.len() > 0 && s[0] == '+' {
        let d = s.skip(1);
        d.len() > 0 && all_digits(d) && digits_value(d) <= 2147483647
    } else {
        s.len() > 0 && all_digits(s) && digits_value(s) <= 2147483647
    }
}

/// The digits from `from` on are all ASCII digits and their value is at
/// most `limit`.
fn digits_within(s: &Vec<char>, from: usize, limit: u64) -> (b: bool)
    requires
        from <= s@.len(),
        limit <= 2147483648,
    ensures
        b == (all_digits(s@.skip(from as int)) && digits_value(s@.skip(from as int)) <= limit),
{
    let ghost d = s@.skip(from as int);
    let mut val: u64 = 0;
    let mut big = false;
    let mut i: usize = from;
    while i < s.len()
        invariant
            from <= i <= s@.len(),
            d == s@.skip(from as int),
            limit <= 2147483648,
            all_digits(d.take(i - from)),
            !big ==> val == digits_value(d.take(i - from)),
            big ==> digits_value(d.take(i - from)) > limit,
            val <= limit,
        decreases s@.len() - i,
    {
        let c = s[i];
        proof {
            assert(d.take(i - from + 1).drop_last() =~= d.take(i - from));
            assert(d.take(i - from + 1).last() == c);
        }
        if !('0' <= c && c <= '9') {
            proof {
                assert(!is_digit(d[i - from]));
            }
            return false;
        }
        let digit: u64 = if c == '0' { 0 } else if c == '1' { 1 } else if c == '2' { 2 } else if c == '3' {
            3
        } else if c == '4' { 4 } else if c == '5' { 5 } else if c == '6' { 6 } else if c == '7' {
            7
        } else if c == '8' { 8 } else { 9 };
        assert(digit == c as int - '0' as int);
        if !big {
            let nv = val * 10 + digit;
            if nv > limit {
                big = true;
            } else {
                val = nv;
            }
        }
        i += 1;
        proof {
            assert forall|q: int| 0 <= q < d.take(i - from).len() implies is_digit(#[trigger] d.take(i - from)[q]) by {
                if q < i - from - 1 {
                    assert(d.take(i - from)[q] == d.take(i - from - 1)[q]);
                }
            }
        }
    }
    assert(d.take(i - from) =~= d);
    !big
}

/// `s.parse::<i32>().is_ok()`.
fn parses_i32(s: &Vec<char>) -> (b: bool)
    ensures
        b == parses_as_i32(s@),
{
    if s.len() > 0 && s[0] == '-' {
        s.len() > 1 && digits_within(s, 1, 2147483648)
    } else if s.len() > 0 && s[0] == '+' {
        s.len() > 1 && digits_within(s, 1, 2147483647)
    } else {
        assert(s@.skip(0) =~= s@);
        s.len() > 0 && digits_within(s, 0, 2147483647)
    }
}

pub open spec fn is_bullet(m: Seq<char>) -> bool {
    m == seq!['-'] || m == seq!['*'] || m == seq!['+']
}

fn is_bullet_vec(m: &Vec<char>) -> (b: bool)
    ensures
        b == is_bullet(m@),
{
    let b = m.len() == 1 && (m[0] == '-' || m[0] == '*' || m[0] == '+');
    proof {
        if m@.len() == 1 {
            assert(m@ =~= seq![m@[0]]);
        }
    }
    b
}

/// A new item joins the list: the list is empty, or both markers are
/// bullets, or both parse as `i32`.
pub open spec fn same_list_spec(items: Seq<ListItemV>, n: ListItemV) -> bool {
    ||| items.len() == 0
    ||| (is_bullet(items[0].marker) && is_bullet(n.marker))
    ||| (parses_as_i32(items[0].marker) && parses_as_i32(n.marker))
}

/// Check if a new item belongs to the same list as existing items.
fn is_same_list(existing_items: &Vec<ListItem>, new_item: &ListItem) -> (b: bool)
    ensures
        b == same_list_spec(items_view(existing_items@), new_item@),
{
    if existing_items.len() == 0 {
        return true;
    }
    let first = chars_of(existing_items[0].marker.as_str());
    let new_marker = chars_of(new_item.marker.as_str());
    if is_bullet_vec(&first) && is_bullet_vec(&new_marker) {
        return true;
    }
    if parses_i32(&first) && parses_i32(&new_marker) {
        return true;
    }
    false
}

/// A new item nests: it comes after the list's first item.
pub open spec fn nested_spec(items: Seq<ListItemV>, n: ListItemV) -> bool {
    items.len() > 0 && n.line_number > items[0].line_number
}

/// Check if a new item is a nested list item.
fn is_nested_list(existing_items: &Vec<ListItem>, new_item: &ListItem) -> (b: bool)
    ensures
        b == nested_spec(items_view(existing_items@), new_item@),
{
    if existing_items.len() == 0 {
        return false;
    }
    new_item.line_number > existing_items[0].line_number
}

/// The bytes of a line's leading whitespace.
pub open spec fn indent_of(line: Seq<char>) -> int {
    byte_len(line.take(lead_ws(line) as int)) as int
}

fn indent_vec(line: &Vec<char>) -> (n: u128)
    ensures
        n == indent_of(line@),
{
    let k = count_lead_ws(line);
    proof { crate::text::lemma_lead_ws_bound(line@); }
    let head = slice_vec(line, 0, k);
    assert(head@ =~= line@.take(k as int));
    byte_len_wide(&head)
}

/// A continuation line: the list is not empty, and the line is not blank,
/// is indented by at least two bytes of whitespace and is no list item.
pub open spec fn continuation_spec(line: Seq<char>, items: Seq<ListItemV>) -> bool {
    &&& items.len() > 0
    &&& !is_blank(line)
    &&& indent_of(line) >= 2
    &&& item_spec(line, 0) is None
}

/// Check if a line is a continuation of the current list item.
fn is_continuation_line(line: &Vec<char>, current_items: &Vec<ListItem>) -> (b: bool)
    ensures
        b == continuation_spec(line@, items_view(current_items@)),
{
    if current_items.len() == 0 {
        return false;
    }
    if is_blank_vec(line) {
        return false;
    }
    indent_vec(line) >= 2 && parse_list_item(line, 0).is_none()
}

// ---------------------------------------------------------------------
// Code blocks
// ---------------------------------------------------------------------

/// A fence line: it opens with three backticks or three tildes.
pub open spec fn list_fence_line(t: Seq<char>) -> bool {
    starts_with(t, seq!['`', '`', '`']) || starts_with(t, seq!['~', '~', '~'])
}

/// After the first `k` lines: inside a block, where the open block
/// started, and the blocks closed so far.
pub open spec fn ranges_upto(ls: Seq<Seq<char>>, k: int) -> (bool, int, Seq<(int, int)>)
    decreases k,
{
    if k <= 0 {
        (false, 0, Seq::empty())
    } else {
        let (inb, st, rs) = ranges_upto(ls, k - 1);
        if list_fence_line(trim(ls[k - 1])) {
            if inb {
                (false, st, rs.push((st, k - 1)))
            } else {
                (true, k - 1, rs)
            }
        } else {
            (inb, st, rs)
        }
    }
}

/// The code blocks as ranges of line numbers, both ends included; a block
/// left open runs to the last line.
pub open spec fn code_line_ranges(ls: Seq<Seq<char>>) -> Seq<(int, int)> {
    let (inb, st, rs) = ranges_upto(ls, ls.len() as int);
    if inb {
        rs.push((st, ls.len() - 1))
    } else {
        rs
    }
}

pub open spec fn in_ranges(i: int, rs: Seq<(int, int)>) -> bool {
    exists|k: int| 0 <= k < rs.len() && (#[trigger] rs[k]).0 <= i && i <= rs[k].1
}

pub open spec fn ranges_view(v: Seq<(usize, usize)>) -> Seq<(int, int)> {
    v.map_values(|p: (usize, usize)| (p.0 as int, p.1 as int))
}

pub open spec fn lines_view(v: Seq<Vec<char>>) -> Seq<Seq<char>> {
    v.map_values(|l: Vec<char>| l@)
}

fn is_list_fence(t: &Vec<char>) -> (b: bool)
    ensures
        b == list_fence_line(t@),
{
    let b = t.len() >= 3 && ((t[0] == '`' && t[1] == '`' && t[2] == '`') || (t[0] == '~' && t[1] == '~' && t[2] == '~'));
    proof {
        if t@.len() >= 3 {
            let h = t@.take(3);
            assert(h[0] == t@[0] && h[1] == t@[1] && h[2] == t@[2]);
            if t@[0] == '`' && t@[1] == '`' && t@[2] == '`' {
                assert(h =~= seq!['`', '`', '`']);
            }
            if t@[0] == '~' && t@[1] == '~' && t@[2] == '~' {
                assert(h =~= seq!['~', '~', '~']);
            }
        }
    }
    b
}

/// Get code block regions as line number ranges (`start_line`, `end_line`).
fn get_code_block_line_ranges(lines: &Vec<Vec<char>>) -> (r: Vec<(usize, usize)>)
    ensures
        ranges_view(r@) == code_line_ranges(lines_view(lines@)),
        forall|k: int| 0 <= k < r@.len() ==> (#[trigger] r@[k]).1 < lines@.len(),
{
    let ghost ls = lines_view(lines@);
    let mut ranges: Vec<(usize, usize)> = Vec::new();
    let mut in_code_block = false;
    let mut block_start: usize = 0;
    let mut i: usize = 0;
    while i < lines.len()
        invariant
            i <= lines@.len(),
            ls == lines_view(lines@),
            ranges_upto(ls, i as int) == (in_code_block, block_start as int, ranges_view(ranges@)),
            block_start <= i,
            in_code_block ==> block_start < i,
            forall|k: int| 0 <= k < ranges@.len() ==> (#[trigger] ranges@[k]).1 < i,
        decreases lines@.len() - i,
    {
        let t = trim_vec(&lines[i]);
        if is_list_fence(&t) {
            if in_code_block {
                let ghost before = ranges@;
                ranges.push((block_start, i));
                in_code_block = false;
                assert(ranges_view(ranges@) =~= ranges_view(before).push((block_start as int, i as int)));
            } else {
                block_start = i;
                in_code_block = true;
            }
        }
        i += 1;
    }
    if in_code_block {
        let ghost before = ranges@;
        ranges.push((block_start, lines.len() - 1));
        assert(ranges_view(ranges@) =~= ranges_view(before).push((block_start as int, lines@.len() - 1)));
    }
    ranges
}

/// Check if a line number is inside a code block region.
fn is_in_code_region(line_num: usize, regions: &Vec<(usize, usize)>) -> (b: bool)
    ensures
        b == in_ranges(line_num as int, ranges_view(regions@)),
{
    let ghost rv = ranges_view(regions@);
    let mut k: usize = 0;
    while k < regions.len()
        invariant
            k <= regions@.len(),
            rv == ranges_view(regions@),
            forall|q: int| 0 <= q < k ==> !(rv[q].0 <= line_num && line_num <= rv[q].1),
        decreases regions@.len() - k,
    {
        let (start, end) = regions[k];
        if line_num >= start && line_num <= end {
            assert(rv[k as int].0 <= line_num && line_num <= rv[k as int].1);
            return true;
        }
        k += 1;
    }
    false
}

// ---------------------------------------------------------------------
// Detection
// ---------------------------------------------------------------------

/// Gathering the items of a list from line `i` on: the items so far and
/// the line where the list ends (exclusive).
pub open spec fn collect_items(ls: Seq<Seq<char>>, rs: Seq<(int, int)>, items: Seq<ListItemV>, i: int) -> (Seq<ListItemV>, int)
    decreases ls.len() - i,
{
    if i < 0 || i >= ls.len() || in_ranges(i, rs) {
        (items, i)
    } else if is_blank(ls[i]) {
        if i + 1 < ls.len() && (match item_spec(ls[i + 1], (i + 1) as nat) {
            Some(n) => same_list_spec(items, n),
            None => false,
        }) {
            collect_items(ls, rs, items, i + 1)
        } else {
            (items, i)
        }
    } else if (match item_spec(ls[i], i as nat) {
        Some(n) => same_list_spec(items, n) || nested_spec(items, n),
        None => false,
    }) {
        collect_items(ls, rs, items.push(item_spec(ls[i], i as nat)->0), i + 1)
    } else if continuation_spec(ls[i], items) {
        collect_items(ls, rs, items, i + 1)
    } else {
        (items, i)
    }
}

/// The lists that start at line `i` or later.
pub open spec fn lists_from(ls: Seq<Seq<char>>, rs: Seq<(int, int)>, i: int) -> Seq<ListV>
    decreases ls.len() - i,
{
    if i < 0 || i >= ls.len() {
        Seq::empty()
    } else if in_ranges(i, rs) {
        lists_from(ls, rs, i + 1)
    } else {
        match item_spec(ls[i], i as nat) {
            None => lists_from(ls, rs, i + 1),
            Some(item) => {
                let (items, j) = collect_items(ls, rs, seq![item], i + 1);
                if j <= i || j > ls.len() {
                    Seq::empty()
                } else {
                    seq![ListV {
                        items,
                        start_line: i as nat,
                        end_line: (j - 1) as nat,
                        is_ordered: parses_as_i32(items[0].marker),
                    }] + lists_from(ls, rs, j)
                }
            },
        }
    }
}

proof fn lemma_collect_bounds(ls: Seq<Seq<char>>, rs: Seq<(int, int)>, items: Seq<ListItemV>, i: int)
    requires
        0 <= i <= ls.len(),
    ensures
        i <= collect_items(ls, rs, items, i).1 <= ls.len(),
        collect_items(ls, rs, items, i).0.len() >= items.len(),
        forall|q: int| 0 <= q < items.len() ==> collect_items(ls, rs, items, i).0[q] == items[q],
    decreases ls.len() - i,
{
    if i < 0 || i >= ls.len() || in_ranges(i, rs) {
    } else if is_blank(ls[i]) {
        if i + 1 < ls.len() && (match item_spec(ls[i + 1], (i + 1) as nat) {
            Some(n) => same_list_spec(items, n),
            None => false,
        }) {
            lemma_collect_bounds(ls, rs, items, i + 1);
        }
    } else if (match item_spec(ls[i], i as nat) {
        Some(n) => same_list_spec(items, n) || nested_spec(items, n),
        None => false,
    }) {
        let nx = items.push(item_spec(ls[i], i as nat)->0);
        lemma_collect_bounds(ls, rs, nx, i + 1);
        assert forall|q: int| 0 <= q < items.len() implies collect_items(ls, rs, items, i).0[q] == items[q] by {
            assert(nx[q] == items[q]);
        }
    } else if continuation_spec(ls[i], items) {
        lemma_collect_bounds(ls, rs, items, i + 1);
    }
}

/// All lists of a text, in order.
pub open spec fn detect_lists_spec(content: Seq<char>) -> Seq<ListV> {
    let ls = lines(content);
    lists_from(ls, code_line_ranges(ls), 0)
}

/// Detect all lists in the given content.
///
/// Identifies both bullet lists (-, *, +) and ordered lists (1., 2), etc.).
/// Lists inside code blocks are ignored.
pub fn detect_lists(content: &str) -> (r: Vec<List>)
    ensures
        lists_view(r@) == detect_lists_spec(content@),
{
    let chars = chars_of(content);
    let all_lines = split_lines(&chars);
    let ghost ls = lines_view(all_lines@);
    assert(ls =~= lines(content@));
    let code_line_ranges = get_code_block_line_ranges(&all_lines);
    let ghost rs = ranges_view(code_line_ranges@);
    let mut lists: Vec<List> = Vec::new();
    let mut i: usize = 0;
    while i < all_lines.len()
        invariant
            i <= all_lines@.len(),
            ls == lines_view(all_lines@),
            rs == ranges_view(code_line_ranges@),
            lists_from(ls, rs, 0) == lists_view(lists@) + lists_from(ls, rs, i as int),
        decreases all_lines@.len() - i,
    {
        if is_in_code_region(i, &code_line_ranges) {
            i += 1;
            assert(lists_from(ls, rs, i - 1) == lists_from(ls, rs, i as int));
            continue;
        }
        let parsed = parse_list_item(&all_lines[i], i);
        match parsed {
            None => {
                i += 1;
                assert(lists_from(ls, rs, i - 1) == lists_from(ls, rs, i as int));
            },
            Some(item) => {
                let ghost first = item@;
                let start_line = i;
                let mut current_list_items: Vec<ListItem> = Vec::new();
                current_list_items.push(item);
                assert(items_view(current_list_items@) =~= seq![first]);
                let ghost target = collect_items(ls, rs, seq![first], start_line + 1);
                proof {
                    lemma_collect_bounds(ls, rs, seq![first], start_line + 1);
                }
                i += 1;
                let mut done = false;
                while !done && i < all_lines.len()
                    invariant
                        start_line < i <= all_lines@.len(),
                        ls == lines_view(all_lines@),
                        rs == ranges_view(code_line_ranges@),
                        current_list_items@.len() >= 1,
                        done ==> (items_view(current_list_items@), i as int) == target,
                        !done ==> collect_items(ls, rs, items_view(current_list_items@), i as int) == target,
                    decreases all_lines@.len() - i + (if done { 0int } else { 1int }),
                {
                    let ghost iv = items_view(current_list_items@);
                    if is_in_code_region(i, &code_line_ranges) {
                        done = true;
                    } else if is_blank_vec(&all_lines[i]) {
                        let mut cont = false;
                        if i + 1 < all_lines.len() {
                            match parse_list_item(&all_lines[i + 1], i + 1) {
                                Some(next_item) => {
                                    cont = is_same_list(&current_list_items, &next_item);
                                },
                                None => {},
                            }
                        }
                        if cont {
                            i += 1;
                        } else {
                            done = true;
                        }
                    } else {
                        let next = parse_list_item(&all_lines[i], i);
                        let mut pushed = false;
                        match next {
                            Some(next_item) => {
                                if is_same_list(&current_list_items, &next_item) || is_nested_list(&current_list_items, &next_item) {
                                    let ghost nv = next_item@;
                                    current_list_items.push(next_item);
                                    assert(items_view(current_list_items@) =~= iv.push(nv));
                                    i += 1;
                                    pushed = true;
                                }
                            },
                            None => {},
                        }
                        if !pushed {
                            if is_continuation_line(&all_lines[i], &current_list_items) {
                                i += 1;
                            } else {
                                done = true;
                            }
                        }
                    }
                }
                let marker = chars_of(current_list_items[0].marker.as_str());
                let is_ordered = parses_i32(&marker);
                let ghost lv = ListV {
                    items: target.0,
                    start_line: start_line as nat,
                    end_line: (target.1 - 1) as nat,
                    is_ordered: parses_as_i32(target.0[0].marker),
                };
                let ghost before = lists@;
                lists.push(List { items: current_list_items, start_line, end_line: i - 1, is_ordered });
                assert(lists_view(lists@) =~= lists_view(before).push(lists_view(lists@).last()));
                assert(lists_from(ls, rs, start_line as int) == seq![lists_view(lists@).last()] + lists_from(ls, rs, i as int));
                assert(lists_view(lists@) + lists_from(ls, rs, i as int) =~= lists_view(before) + lists_from(ls, rs, start_line as int));
            },
        }
    }
    assert(lists_view(lists@) + lists_from(ls, rs, i as int) =~= lists_view(lists@));
    lists
}

// ---------------------------------------------------------------------
// Indentation
// ---------------------------------------------------------------------

/// The first level from `k` on whose indentation is at least `x`; the
/// stack's height when there is none.
pub open spec fn first_le(stack: Seq<int>, x: int, k: int) -> int
    decreases stack.len() - k,
{
    if k < 0 || k >= stack.len() {
        stack.len() as int
    } else if x <= stack[k] {
        k
    } else {
        first_le(stack, x, k + 1)
    }
}

pub open spec fn spaces(n: nat) -> Seq<char> {
    Seq::new(n, |_i: int| ' ')
}

/// A list item's line rewritten at `level`: two spaces per level, then
/// the item's text as it was, except that with `dash_bullets` a bullet
/// item is written with `- ` before the text after its bullet.
pub open spec fn item_line(line: Seq<char>, item: ListItemV, level: int, dash_bullets: bool) -> Seq<char> {
    let pad = spaces((2 * level) as nat);
    if !dash_bullets {
        pad + trim_start(line)
    } else if is_bullet(item.marker) {
        pad + seq!['-', ' '] + trim_start(line).skip(2)
    } else {
        pad + trim_start(line)
    }
}

/// The output lines and the stack of indentations after the first `k`
/// lines. Lines in code blocks and lines that are no list item are kept; a
/// blank line empties the stack. An item's level is the first level whose
/// indentation is at least its own; the stack is cut there and the item's
/// indentation pushed.
pub open spec fn reindent_state(ls: Seq<Seq<char>>, rs: Seq<(int, int)>, k: int, dash_bullets: bool) -> (Seq<Seq<char>>, Seq<int>)
    decreases k,
{
    if k <= 0 {
        (Seq::empty(), Seq::empty())
    } else {
        let (out, st) = reindent_state(ls, rs, k - 1, dash_bullets);
        let line = ls[k - 1];
        if in_ranges(k - 1, rs) {
            (out.push(line), st)
        } else {
            match item_spec(line, (k - 1) as nat) {
                Some(item) => {
                    let level = first_le(st, indent_of(line), 0);
                    (out.push(item_line(line, item, level, dash_bullets)), st.take(level).push(indent_of(line)))
                },
                None => (out.push(line), if is_blank(line) { Seq::empty() } else { st }),
            }
        }
    }
}

pub open spec fn reindent_spec(content: Seq<char>, dash_bullets: bool) -> Seq<char> {
    let ls = lines(content);
    join_lines(reindent_state(ls, code_line_ranges(ls), ls.len() as int, dash_bullets).0)
}

pub open spec fn stack_view(v: Seq<u128>) -> Seq<int> {
    v.map_values(|x: u128| x as int)
}

proof fn lemma_first_le(stack: Seq<int>, x: int, k: int)
    requires
        0 <= k <= stack.len(),
    ensures
        k <= first_le(stack, x, k) <= stack.len(),
    decreases stack.len() - k,
{
    if k < stack.len() && !(x <= stack[k]) {
        lemma_first_le(stack, x, k + 1);
    }
}

fn push_spaces(out: &mut Vec<char>, n: usize)
    ensures
        final(out)@ == old(out)@ + spaces((2 * n) as nat),
{
    let ghost start = out@;
    let mut j: usize = 0;
    while j < n
        invariant
            j <= n,
            out@ == start + spaces((2 * j) as nat),
        decreases n - j,
    {
        out.push(' ');
        out.push(' ');
        j += 1;
        assert(out@ =~= start + spaces((2 * j) as nat));
    }
}

/// Re-indent the list items of a text.
fn reindent(content: &str, dash_bullets: bool) -> (r: String)
    ensures
        r@ == reindent_spec(content@, dash_bullets),
{
    let chars = chars_of(content);
    let all_lines = split_lines(&chars);
    let ghost ls = lines_view(all_lines@);
    assert(ls =~= lines(content@));
    if all_lines.len() == 0 {
        return String::new();
    }
    let code_ranges = get_code_block_line_ranges(&all_lines);
    let ghost rs = ranges_view(code_ranges@);
    let mut result: Vec<Vec<char>> = Vec::new();
    let mut list_stack: Vec<u128> = Vec::new();
    let mut i: usize = 0;
    while i < all_lines.len()
        invariant
            i <= all_lines@.len(),
            ls == lines_view(all_lines@),
            rs == ranges_view(code_ranges@),
            (lines_view(result@), stack_view(list_stack@)) == reindent_state(ls, rs, i as int, dash_bullets),
        decreases all_lines@.len() - i,
    {
        let ghost before = lines_view(result@);
        let line = slice_vec(&all_lines[i], 0, all_lines[i].len());
        assert(line@ =~= ls[i as int]);
        if is_in_code_region(i, &code_ranges) {
            result.push(line);
            assert(lines_view(result@) =~= before.push(ls[i as int]));
        } else {
            match parse_list_item(&line, i) {
                Some(item) => {
                    let current_indent = indent_vec(&line);
                    let ghost sv = stack_view(list_stack@);
                    proof { lemma_first_le(sv, current_indent as int, 0); }
                    let mut level: usize = list_stack.len();
                    let mut found = false;
                    let mut idx: usize = 0;
                    while idx < list_stack.len() && !found
                        invariant
                            idx <= list_stack@.len(),
                            sv == stack_view(list_stack@),
                            !found ==> first_le(sv, current_indent as int, 0) == first_le(sv, current_indent as int, idx as int),
                            found ==> level == first_le(sv, current_indent as int, 0),
                            !found ==> level == list_stack@.len(),
                        decreases list_stack@.len() - idx + (if found { 0int } else { 1int }),
                    {
                        if current_indent <= list_stack[idx] {
                            level = idx;
                            found = true;
                        } else {
                            idx += 1;
                        }
                    }
                    list_stack.truncate(level);
                    list_stack.push(current_indent);
                    assert(stack_view(list_stack@) =~= sv.take(level as int).push(current_indent as int));
                    let mut out: Vec<char> = Vec::new();
                    push_spaces(&mut out, level);
                    let marker = chars_of(item.marker.as_str());
                    if !dash_bullets {
                        let t = trim_start_vec(&line);
                        append_chars(&mut out, &t);
                    } else if is_bullet_vec(&marker) {
                        let t = trim_start_vec(&line);
                        proof {
                            let tt = trim_start(line@);
                            if !(starts2(tt, '-') || starts2(tt, '*') || starts2(tt, '+')) {
                                lemma_digits_end(tt, 0);
                                assert(item@.marker[0] == tt[0]);
                                assert(seq!['-'][0] == '-' && seq!['*'][0] == '*' && seq!['+'][0] == '+');
                            }
                        }
                        let rest = slice_vec(&t, 2, t.len());
                        assert(rest@ =~= t@.skip(2));
                        out.push('-');
                        out.push(' ');
                        append_chars(&mut out, &rest);
                    } else {
                        let t = trim_start_vec(&line);
                        append_chars(&mut out, &t);
                    }
                    assert(out@ =~= item_line(ls[i as int], item@, level as int, dash_bullets));
                    result.push(out);
                    assert(lines_view(result@) =~= before.push(item_line(ls[i as int], item@, level as int, dash_bullets)));
                },
                None => {
                    if is_blank_vec(&line) {
                        list_stack = Vec::new();
                        assert(stack_view(list_stack@) =~= Seq::<int>::empty());
                    }
                    result.push(line);
                    assert(lines_view(result@) =~= before.push(ls[i as int]));
                },
            }
        }
        i += 1;
    }
    let joined = join_lines_vec(&result);
    assert(result@.map_values(|l: Vec<char>| l@) =~= lines_view(result@));
    string_of(&joined)
}

/// Normalize list indentation to standard 2-space increments.
///
/// Takes content with lists and normalizes the indentation of nested items
/// to use consistent 2-space increments per nesting level; only the
/// indentation of item lines changes.
pub fn normalize_list_indentation(content: &str) -> (r: String)
    ensures
        r@ == reindent_spec(content@, false),
{
    reindent(content, false)
}

/// Normalize list formatting: nested items are indented by two spaces per
/// level and the bullets `*` and `+` become `-`; the text after a bullet
/// (task checkboxes included) and ordered items are kept as they were.
pub fn normalize_lists(content: &str) -> (r: String)
    ensures
        r@ == reindent_spec(content@, true),
{
    reindent(content, true)
}

// ---------------------------------------------------------------------
// Blank lines before lists
// ---------------------------------------------------------------------

/// A blank line goes before line `k`: it is a list item outside code
/// blocks, and the line before it is text (not blank, no list item) outside
/// code blocks.
pub open spec fn needs_blank_before(ls: Seq<Seq<char>>, rs: Seq<(int, int)>, k: int) -> bool {
    &&& 0 < k < ls.len()
    &&& !in_ranges(k, rs)
    &&& item_spec(ls[k], k as nat) is Some
    &&& !in_ranges(k - 1, rs)
    &&& !is_blank(ls[k - 1])
    &&& item_spec(ls[k - 1], (k - 1) as nat) is None
}

/// The output lines for the first `k` lines.
pub open spec fn loose_upto(ls: Seq<Seq<char>>, rs: Seq<(int, int)>, k: int) -> Seq<Seq<char>>
    decreases k,
{
    if k <= 0 {
        Seq::empty()
    } else {
        let prev = loose_upto(ls, rs, k - 1);
        if needs_blank_before(ls, rs, k - 1) {
            prev.push(Seq::empty()).push(ls[k - 1])
        } else {
            prev.push(ls[k - 1])
        }
    }
}

pub open spec fn loose_lists_spec(content: Seq<char>) -> Seq<char> {
    let ls = lines(content);
    join_lines(loose_upto(ls, code_line_ranges(ls), ls.len() as int))
}

/// Add a blank line before each list that directly follows a line of text
/// (outside code blocks), as Markdown renderers such as Pandoc need it.
pub fn normalize_loose_lists(content: &str) -> (r: String)
    ensures
        r@ == loose_lists_spec(content@),
{
    let chars = chars_of(content);
    let all_lines = split_lines(&chars);
    let ghost ls = lines_view(all_lines@);
    assert(ls =~= lines(content@));
    let code_ranges = get_code_block_line_ranges(&all_lines);
    let ghost rs = ranges_view(code_ranges@);
    let mut result: Vec<Vec<char>> = Vec::new();
    let mut prev_text = false;
    let mut i: usize = 0;
    while i < all_lines.len()
        invariant
            i <= all_lines@.len(),
            ls == lines_view(all_lines@),
            rs == ranges_view(code_ranges@),
            lines_view(result@) == loose_upto(ls, rs, i as int),
            i > 0 ==> prev_text == (!in_ranges(i - 1, rs) && !is_blank(ls[i - 1]) && item_spec(ls[i - 1], (i - 1) as nat) is None),
            i == 0 ==> !prev_text,
        decreases all_lines@.len() - i,
    {
        let ghost before = lines_view(result@);
        let line = slice_vec(&all_lines[i], 0, all_lines[i].len());
        assert(line@ =~= ls[i as int]);
        let in_code = is_in_code_region(i, &code_ranges);
        let is_item = parse_list_item(&line, i).is_some();
        if !in_code && is_item && prev_text {
            result.push(Vec::new());
            assert(lines_view(result@) =~= before.push(Seq::empty()));
        }
        let ghost mid = lines_view(result@);
        prev_text = !in_code && !is_blank_vec(&line) && !is_item;
        result.push(line);
        assert(lines_view(result@) =~= mid.push(ls[i as int]));
        i += 1;
    }
    let joined = join_lines_vec(&result);
    assert(result@.map_values(|l: Vec<char>| l@) =~= lines_view(result@));
    string_of(&joined)
}

// ---------------------------------------------------------------------
// Laws
// ---------------------------------------------------------------------

/// The output lines of the re-indentation of a text.
pub open spec fn reindent_lines(content: Seq<char>, dash_bullets: bool) -> Seq<Seq<char>> {
    let ls = lines(content);
    reindent_state(ls, code_line_ranges(ls), ls.len() as int, dash_bullets).0
}

proof fn lemma_reindent_len(ls: Seq<Seq<char>>, rs: Seq<(int, int)>, k: int, dash_bullets: bool)
    requires
        k >= 0,
    ensures
        reindent_state(ls, rs, k, dash_bullets).0.len() == k,
    decreases k,
{
    if k > 0 {
        lemma_reindent_len(ls, rs, k - 1, dash_bullets);
    }
}

proof fn lemma_reindent_prefix(ls: Seq<Seq<char>>, rs: Seq<(int, int)>, k: int, m: int, dash_bullets: bool)
    requires
        0 <= k <= m,
    ensures
        forall|i: int| 0 <= i < k ==> #[trigger] reindent_state(ls, rs, m, dash_bullets).0[i] == reindent_state(ls, rs, k, dash_bullets).0[i],
    decreases m - k,
{
    if k < m {
        lemma_reindent_prefix(ls, rs, k, m - 1, dash_bullets);
        lemma_reindent_len(ls, rs, m - 1, dash_bullets);
        let prev = reindent_state(ls, rs, m - 1, dash_bullets).0;
        let cur = reindent_state(ls, rs, m, dash_bullets).0;
        assert forall|i: int| 0 <= i < k implies #[trigger] cur[i] == reindent_state(ls, rs, k, dash_bullets).0[i] by {
            assert(cur[i] == prev[i]);
        }
    }
}

/// Line `i` of the output is the line that step `i` pushed.
proof fn lemma_reindent_line(ls: Seq<Seq<char>>, rs: Seq<(int, int)>, i: int, dash_bullets: bool)
    requires
        0 <= i < ls.len(),
    ensures
        reindent_state(ls, rs, ls.len() as int, dash_bullets).0[i] == reindent_state(ls, rs, i + 1, dash_bullets).0.last(),
{
    lemma_reindent_prefix(ls, rs, i + 1, ls.len() as int, dash_bullets);
    lemma_reindent_len(ls, rs, i + 1, dash_bullets);
    lemma_reindent_len(ls, rs, i, dash_bullets);
}

/// Re-indenting lists keeps the number of lines, every line inside a code
/// block, and every line that is no list item.
pub proof fn law_reindent_keeps_other_lines(content: Seq<char>, dash_bullets: bool)
    ensures
        reindent_lines(content, dash_bullets).len() == lines(content).len(),
        forall|i: int|
            0 <= i < lines(content).len() && (in_ranges(i, code_line_ranges(lines(content)))
                || item_spec(lines(content)[i], i as nat) is None) ==> #[trigger] reindent_lines(content, dash_bullets)[i]
                == lines(content)[i],
{
    let ls = lines(content);
    let rs = code_line_ranges(ls);
    lemma_reindent_len(ls, rs, ls.len() as int, dash_bullets);
    assert forall|i: int|
        0 <= i < ls.len() && (in_ranges(i, rs) || item_spec(ls[i], i as nat) is None) implies #[trigger] reindent_lines(
        content,
        dash_bullets,
    )[i] == ls[i] by {
        lemma_reindent_line(ls, rs, i, dash_bullets);
    }
}

/// The stack of a second pass: level `j` at indentation `2 * j`.
pub open spec fn evens(m: nat) -> Seq<int> {
    Seq::new(m, |j: int| 2 * j)
}

proof fn lemma_first_le_evens(m: nat, l: int, j: int)
    requires
        0 <= j <= l <= m,
    ensures
        first_le(evens(m), 2 * l, j) == l,
    decreases l - j,
{
    if j < l {
        assert(evens(m)[j] == 2 * j);
        lemma_first_le_evens(m, l, j + 1);
    } else if l < m {
        assert(evens(m)[l] == 2 * l);
    }
}

proof fn lemma_byte_len_spaces(m: nat)
    ensures
        byte_len(spaces(m)) == m,
    decreases m,
{
    if m > 0 {
        assert(spaces(m).drop_last() =~= spaces((m - 1) as nat));
        lemma_byte_len_spaces((m - 1) as nat);
    }
}

proof fn lemma_lead_spaces(m: nat, t: Seq<char>)
    requires
        t.len() > 0,
        !is_ws(t[0]),
    ensures
        lead_ws(spaces(m) + t) == m,
        trim_start(spaces(m) + t) == t,
        indent_of(spaces(m) + t) == m,
    decreases m,
{
    if m > 0 {
        assert((spaces(m) + t).drop_first() =~= spaces((m - 1) as nat) + t);
        lemma_lead_spaces((m - 1) as nat, t);
    } else {
        assert(spaces(0) + t =~= t);
    }
    assert((spaces(m) + t).skip(m as int) =~= t);
    assert((spaces(m) + t).take(m as int) =~= spaces(m));
    lemma_byte_len_spaces(m);
}

/// A text that opens with a character other than whitespace, a backtick
/// or a tilde is no fence line once trimmed.
proof fn lemma_not_fence(t: Seq<char>)
    requires
        t.len() > 0,
        !is_ws(t[0]),
        t[0] != '`',
        t[0] != '~',
    ensures
        trim_start(t) == t,
        !list_fence_line(trim(t)),
{
    assert(lead_ws(t) == 0);
    assert(t.skip(0) =~= t);
    crate::text::lemma_trail_ws_bound(t);
    if trail_ws(t) == t.len() {
        assert(is_ws(t[0]));
    }
    let u = trim_end(t);
    assert(u[0] == t[0]);
    if starts_with(u, seq!['`', '`', '`']) {
        assert(u.take(3)[0] == u[0]);
    }
    if starts_with(u, seq!['~', '~', '~']) {
        assert(u.take(3)[0] == u[0]);
    }
}

proof fn lemma_trim_start_twice(line: Seq<char>)
    ensures
        trim_start(trim_start(line)) == trim_start(line),
{
    crate::text::lemma_lead_ws_bound(line);
    let t = trim_start(line);
    if t.len() > 0 {
        assert(t[0] == line[lead_ws(line) as int]);
        assert(lead_ws(t) == 0);
    }
    assert(t.skip(0) =~= t);
}

/// The text of an item line after its indentation: it opens with neither
/// whitespace, a backtick nor a tilde, and its marker is a bullet exactly
/// when the text opens with a bullet and a space.
proof fn lemma_item_text(o: Seq<char>, k: nat)
    requires
        item_spec(o, k) is Some,
    ensures
        ({
            let t0 = trim_start(o);
            &&& t0.len() > 0
            &&& !is_ws(t0[0])
            &&& t0[0] != '`'
            &&& t0[0] != '~'
            &&& trim_start(t0) == t0
            &&& trim(o) == trim_end(t0)
            &&& !is_blank(o)
            &&& !list_fence_line(trim(o))
            &&& (is_bullet(item_spec(o, k)->0.marker) <==> (starts2(t0, '-') || starts2(t0, '*') || starts2(t0, '+')))
        }),
{
    let it = item_spec(o, k)->0;
    let t0 = trim_start(o);
    crate::text::lemma_lead_ws_bound(o);
    lemma_trim_start_twice(o);
    let bullet = starts2(t0, '-') || starts2(t0, '*') || starts2(t0, '+');
    if !bullet {
        lemma_digits_end(t0, 0);
        assert(it.marker[0] == t0[0]);
        assert(seq!['-'][0] == '-' && seq!['*'][0] == '*' && seq!['+'][0] == '+');
    }
    assert(t0.len() > 0 && !is_ws(t0[0]) && t0[0] != '`' && t0[0] != '~');
    assert(o[lead_ws(o) as int] == t0[0]);
    lemma_not_fence(t0);
}

/// A character that the text after a prefix does not hold, the whole
/// does not hold either, when the prefix holds no such character.
proof fn lemma_no_char_concat(a: Seq<char>, b: Seq<char>, c: char)
    requires
        !a.contains(c),
        !b.contains(c),
    ensures
        !(a + b).contains(c),
{
    if (a + b).contains(c) {
        let i = choose|i: int| 0 <= i < (a + b).len() && (a + b)[i] == c;
        if i < a.len() {
            assert(a[i] == c);
        } else {
            assert(b[i - a.len()] == c);
        }
    }
}

proof fn lemma_no_char_skip(a: Seq<char>, j: int, c: char)
    requires
        !a.contains(c),
        0 <= j <= a.len(),
    ensures
        !a.skip(j).contains(c),
{
    if a.skip(j).contains(c) {
        let i = choose|i: int| 0 <= i < a.skip(j).len() && a.skip(j)[i] == c;
        assert(a[j + i] == c);
    }
}

/// The re-indented line of a bullet item.
#[verifier::spinoff_prover]
proof fn lemma_bullet_line_fixed(o: Seq<char>, k: nat, l: int)
    requires
        item_spec(o, k) is Some,
        is_bullet(item_spec(o, k)->0.marker),
        l >= 0,
    ensures
        ({
            let nl = item_line(o, item_spec(o, k)->0, l, true);
            &&& item_spec(nl, k) is Some
            &&& item_line(nl, item_spec(nl, k)->0, l, true) == nl
            &&& indent_of(nl) == 2 * l
            &&& !is_blank(nl)
            &&& !list_fence_line(trim(nl))
            &&& (!nl.contains('\n') <== !o.contains('\n'))
            &&& (!ends_cr(nl) <== !ends_cr(o))
        }),
{
    lemma_item_text(o, k);
    let t0 = trim_start(o);
    let m = (2 * l) as nat;
    let rest = t0.skip(2);
    let t = seq!['-', ' '] + rest;
    let nl = spaces(m) + t;
    assert(item_line(o, item_spec(o, k)->0, l, true) =~= nl);
    lemma_lead_spaces(m, t);
    lemma_not_fence(t);
    assert(starts2(t, '-'));
    let it2 = item_spec(nl, k)->0;
    assert(it2.marker == seq!['-']);
    assert(t.skip(2) =~= rest);
    assert(item_line(nl, it2, l, true) =~= nl);
    assert(!is_blank(nl)) by {
        assert(nl[m as int] == '-');
    }
    if !o.contains('\n') {
        crate::text::lemma_lead_ws_bound(o);
        lemma_no_char_skip(o, lead_ws(o) as int, '\n');
        lemma_no_char_skip(t0, 2, '\n');
        assert(!seq!['-', ' '].contains('\n')) by {
            if seq!['-', ' '].contains('\n') {
                let i = choose|i: int| 0 <= i < 2 && seq!['-', ' '][i] == '\n';
            }
        }
        assert(!spaces(m).contains('\n'));
        lemma_no_char_concat(seq!['-', ' '], rest, '\n');
        lemma_no_char_concat(spaces(m), t, '\n');
    }
    if !ends_cr(o) && rest.len() > 0 {
        crate::text::lemma_lead_ws_bound(o);
        assert(nl.last() == rest.last());
        assert(rest.last() == t0[t0.len() - 1]);
        assert(t0[t0.len() - 1] == o[o.len() - 1]);
    }
}

/// The re-indented line of an ordered item.
proof fn lemma_ordered_line_fixed(o: Seq<char>, k: nat, l: int)
    requires
        item_spec(o, k) is Some,
        !is_bullet(item_spec(o, k)->0.marker),
        l >= 0,
    ensures
        ({
            let nl = item_line(o, item_spec(o, k)->0, l, true);
            &&& item_spec(nl, k) is Some
            &&& item_line(nl, item_spec(nl, k)->0, l, true) == nl
            &&& indent_of(nl) == 2 * l
            &&& !is_blank(nl)
            &&& !list_fence_line(trim(nl))
            &&& (!nl.contains('\n') <== !o.contains('\n'))
            &&& (!ends_cr(nl) <== !ends_cr(o))
        }),
{
    lemma_item_text(o, k);
    let it = item_spec(o, k)->0;
    let t0 = trim_start(o);
    let m = (2 * l) as nat;
    let nl = spaces(m) + t0;
    assert(item_line(o, it, l, true) =~= nl);
    lemma_lead_spaces(m, t0);
    assert(item_spec(nl, k) == item_spec(o, k));
    assert(item_line(nl, it, l, true) =~= nl);
    assert(!is_blank(nl)) by {
        assert(nl[m as int] == t0[0]);
    }
    if !o.contains('\n') {
        crate::text::lemma_lead_ws_bound(o);
        lemma_no_char_skip(o, lead_ws(o) as int, '\n');
        assert(!spaces(m).contains('\n'));
        lemma_no_char_concat(spaces(m), t0, '\n');
    }
    if !ends_cr(o) {
        crate::text::lemma_lead_ws_bound(o);
        assert(nl.last() == t0.last());
        assert(t0[t0.len() - 1] == o[o.len() - 1]);
    }
}

/// A re-indented item line (with its text kept) re-indents to itself at
/// the same level, and neither it nor the line it came from is a fence or
/// blank.
proof fn lemma_item_line_fixed(o: Seq<char>, k: nat, l: int)
    requires
        item_spec(o, k) is Some,
        l >= 0,
    ensures
        ({
            let nl = item_line(o, item_spec(o, k)->0, l, true);
            &&& item_spec(nl, k) is Some
            &&& item_line(nl, item_spec(nl, k)->0, l, true) == nl
            &&& indent_of(nl) == 2 * l
            &&& !is_blank(nl)
            &&& !list_fence_line(trim(nl))
            &&& !list_fence_line(trim(o))
            &&& !is_blank(o)
            &&& (!nl.contains('\n') <== !o.contains('\n'))
            &&& (!ends_cr(nl) <== !ends_cr(o))
        }),
{
    lemma_item_text(o, k);
    if is_bullet(item_spec(o, k)->0.marker) {
        lemma_bullet_line_fixed(o, k, l);
    } else {
        lemma_ordered_line_fixed(o, k, l);
    }
}

/// Code blocks depend only on which lines are fences.
proof fn lemma_ranges_same(a: Seq<Seq<char>>, b: Seq<Seq<char>>, k: int)
    requires
        a.len() == b.len(),
        0 <= k <= a.len(),
        forall|i: int| 0 <= i < a.len() ==> list_fence_line(trim(#[trigger] a[i])) == list_fence_line(trim(b[i])),
    ensures
        ranges_upto(a, k) == ranges_upto(b, k),
    decreases k,
{
    if k > 0 {
        lemma_ranges_same(a, b, k - 1);
        assert(list_fence_line(trim(a[k - 1])) == list_fence_line(trim(b[k - 1])));
    }
}

/// Line `i` of the re-indentation (text kept): a line of a code block or
/// no list item stays, an item line is re-indented at the level the pass
/// gives it.
proof fn lemma_out_line(ls: Seq<Seq<char>>, i: int)
    requires
        0 <= i < ls.len(),
    ensures
        ({
            let rs = code_line_ranges(ls);
            let o = reindent_state(ls, rs, ls.len() as int, true).0;
            let st = reindent_state(ls, rs, i, true).1;
            &&& (in_ranges(i, rs) || item_spec(ls[i], i as nat) is None) ==> o[i] == ls[i]
            &&& (!in_ranges(i, rs) && item_spec(ls[i], i as nat) is Some) ==> o[i] == item_line(
                ls[i],
                item_spec(ls[i], i as nat)->0,
                first_le(st, indent_of(ls[i]), 0),
                true,
            )
        }),
{
    let rs = code_line_ranges(ls);
    lemma_reindent_line(ls, rs, i, true);
}

/// The second pass over the re-indented lines goes line for line: it
/// gives back each line, and its stack holds the levels' indentations
/// `0, 2, 4, ...`, one for each level of the first pass's stack.
proof fn lemma_second_pass(ls: Seq<Seq<char>>, k: int)
    requires
        0 <= k <= ls.len(),
    ensures
        ({
            let rs = code_line_ranges(ls);
            let o = reindent_state(ls, rs, ls.len() as int, true).0;
            reindent_state(o, rs, k, true) == (o.take(k), evens(reindent_state(ls, rs, k, true).1.len()))
        }),
    decreases k,
{
    let rs = code_line_ranges(ls);
    let o = reindent_state(ls, rs, ls.len() as int, true).0;
    lemma_reindent_len(ls, rs, ls.len() as int, true);
    if k == 0 {
        assert(o.take(0) =~= Seq::<Seq<char>>::empty());
        assert(evens(0) =~= Seq::<int>::empty());
    } else {
        let i = k - 1;
        lemma_second_pass(ls, i);
        lemma_out_line(ls, i);
        let st = reindent_state(ls, rs, i, true).1;
        assert(o.take(i).push(o[i]) =~= o.take(k));
        if in_ranges(i, rs) {
        } else if item_spec(ls[i], i as nat) is Some {
            let l = first_le(st, indent_of(ls[i]), 0);
            lemma_first_le(st, indent_of(ls[i]), 0);
            lemma_item_line_fixed(ls[i], i as nat, l);
            lemma_first_le_evens(st.len(), l, 0);
            assert(evens(st.len()).take(l).push(2 * l) =~= evens((l + 1) as nat));
        } else {
            if is_blank(ls[i]) {
                assert(evens(0) =~= Seq::<int>::empty());
            }
        }
    }
}

/// The re-indented lines can be read back from their join when the
/// original lines can, and each is a fence exactly when its original is.
proof fn lemma_out_rejoinable(ls: Seq<Seq<char>>)
    requires
        rejoinable(ls),
    ensures
        ({
            let rs = code_line_ranges(ls);
            let o = reindent_state(ls, rs, ls.len() as int, true).0;
            &&& o.len() == ls.len()
            &&& rejoinable(o)
            &&& forall|i: int| 0 <= i < ls.len() ==> list_fence_line(trim(#[trigger] o[i])) == list_fence_line(trim(ls[i]))
        }),
{
    let rs = code_line_ranges(ls);
    let o = reindent_state(ls, rs, ls.len() as int, true).0;
    lemma_reindent_len(ls, rs, ls.len() as int, true);
    assert forall|i: int| 0 <= i < ls.len() implies {
        &&& list_fence_line(trim(#[trigger] o[i])) == list_fence_line(trim(ls[i]))
        &&& !o[i].contains('\n')
        &&& (i < ls.len() - 1 ==> !ends_cr(o[i]))
        &&& (i == ls.len() - 1 ==> o[i].len() > 0)
    } by {
        lemma_out_line(ls, i);
        assert(!ls[i].contains('\n'));
        if i < ls.len() - 1 {
            assert(!ends_cr(ls[i]));
        }
        if !in_ranges(i, rs) && item_spec(ls[i], i as nat) is Some {
            let st = reindent_state(ls, rs, i, true).1;
            lemma_first_le(st, indent_of(ls[i]), 0);
            lemma_item_line_fixed(ls[i], i as nat, first_le(st, indent_of(ls[i]), 0));
            if o[i].len() == 0 {
                assert(is_blank(o[i]));
            }
        }
    }
}

/// Normalizing lists twice gives what normalizing once gave, for every
/// text whose lines can be read back from their join: no line but the last
/// ends with a carriage return, and the text has a single line or its last
/// line is not empty (it does not end with an empty line).
pub proof fn law_normalize_lists_idempotent(content: Seq<char>)
    requires
        forall|i: int| 0 <= i < lines(content).len() - 1 ==> !ends_cr(#[trigger] lines(content)[i]),
        lines(content).len() <= 1 || lines(content).last().len() > 0,
    ensures
        reindent_spec(reindent_spec(content, true), true) == reindent_spec(content, true),
{
    let ls = lines(content);
    let rs = code_line_ranges(ls);
    let n = ls.len() as int;
    let o = reindent_state(ls, rs, n, true).0;
    if n == 1 && ls[0].len() == 0 {
        lemma_out_line(ls, 0);
        lemma_reindent_len(ls, rs, 1, true);
        assert(trim_start(ls[0]) =~= Seq::<char>::empty());
        assert(item_spec(ls[0], 0) is None);
        assert(o[0] == ls[0]);
        assert(ls[0] =~= Seq::<char>::empty());
        assert(o.len() == 1);
        assert(o =~= seq![Seq::<char>::empty()]);
        assert(join_lines(o) =~= Seq::<char>::empty());
        let e = Seq::<char>::empty();
        assert(split_state(e) == (Seq::<Seq<char>>::empty(), e));
        assert(lines(e) =~= Seq::<Seq<char>>::empty());
        assert(reindent_state(lines(e), code_line_ranges(lines(e)), 0, true).0 =~= Seq::<Seq<char>>::empty());
        return;
    }
    crate::text::lemma_lines_no_newline(content);
    assert(rejoinable(ls));
    lemma_out_rejoinable(ls);
    crate::text::law_lines_of_join(o);
    assert(lines(join_lines(o)) == o);
    lemma_ranges_same(o, ls, n);
    assert(code_line_ranges(o) == rs);
    lemma_second_pass(ls, n);
    assert(o.take(n) =~= o);
}

/// Line `k` is a list item (of any kind: bullet or ordered) outside code
/// blocks.
pub open spec fn list_item_line(ls: Seq<Seq<char>>, rs: Seq<(int, int)>, k: int) -> bool {
    !in_ranges(k, rs) && item_spec(ls[k], k as nat) is Some
}

/// Line `k` is text outside code blocks: not blank and no list item.
pub open spec fn text_line(ls: Seq<Seq<char>>, rs: Seq<(int, int)>, k: int) -> bool {
    !in_ranges(k, rs) && !is_blank(ls[k]) && item_spec(ls[k], k as nat) is None
}

/// Line `k` is a list item right after a line of text.
pub open spec fn list_after_text(ls: Seq<Seq<char>>, rs: Seq<(int, int)>, k: int) -> bool {
    0 < k < ls.len() && list_item_line(ls, rs, k) && text_line(ls, rs, k - 1)
}

/// How many of lines `0..=k` are list items right after a line of text.
pub open spec fn lists_after_text(ls: Seq<Seq<char>>, rs: Seq<(int, int)>, k: int) -> nat
    decreases k + 1,
{
    if k < 0 {
        0
    } else {
        lists_after_text(ls, rs, k - 1) + if list_after_text(ls, rs, k) { 1nat } else { 0nat }
    }
}

proof fn lemma_loose_upto(ls: Seq<Seq<char>>, rs: Seq<(int, int)>, k: int)
    requires
        0 <= k <= ls.len(),
    ensures
        loose_upto(ls, rs, k).len() == k + lists_after_text(ls, rs, k - 1),
        forall|j: int| 0 <= j < k ==> loose_upto(ls, rs, k)[j + lists_after_text(ls, rs, j)] == ls[j],
        forall|j: int| 0 <= j < k && #[trigger] list_after_text(ls, rs, j) ==> loose_upto(ls, rs, k)[j
            + lists_after_text(ls, rs, j) - 1] == Seq::<char>::empty(),
    decreases k,
{
    if k > 0 {
        lemma_loose_upto(ls, rs, k - 1);
        let prev = loose_upto(ls, rs, k - 1);
        let cur = loose_upto(ls, rs, k);
        assert(needs_blank_before(ls, rs, k - 1) == list_after_text(ls, rs, k - 1));
        assert forall|j: int| 0 <= j < k implies cur[j + lists_after_text(ls, rs, j)] == ls[j] by {
            if j < k - 1 {
                lemma_lists_after_text_mono(ls, rs, j, k - 2);
                assert(cur[j + lists_after_text(ls, rs, j)] == prev[j + lists_after_text(ls, rs, j)]);
            }
        }
        assert forall|j: int| 0 <= j < k && #[trigger] list_after_text(ls, rs, j) implies cur[j
            + lists_after_text(ls, rs, j) - 1] == Seq::<char>::empty() by {
            if j < k - 1 {
                lemma_lists_after_text_mono(ls, rs, j, k - 2);
                assert(cur[j + lists_after_text(ls, rs, j) - 1] == prev[j + lists_after_text(ls, rs, j) - 1]);
            }
        }
    }
}

proof fn lemma_lists_after_text_mono(ls: Seq<Seq<char>>, rs: Seq<(int, int)>, j: int, k: int)
    requires
        j <= k,
    ensures
        lists_after_text(ls, rs, j) <= lists_after_text(ls, rs, k),
    decreases k - j,
{
    if j < k {
        lemma_lists_after_text_mono(ls, rs, j, k - 1);
    }
}

/// A blank line is put before every list item (bullet or ordered) outside
/// code blocks whose line before is text outside code blocks, and nothing
/// else changes: the output lines are the input lines in order, line `k`
/// moved down by the number of such items up to it, each such item with an
/// empty line right before it, and no other line added.
pub proof fn law_blank_line_before_lists(content: Seq<char>)
    ensures
        ({
            let ls = lines(content);
            let rs = code_line_ranges(ls);
            let o = loose_upto(ls, rs, ls.len() as int);
            &&& loose_lists_spec(content) == join_lines(o)
            &&& o.len() == ls.len() + lists_after_text(ls, rs, ls.len() - 1)
            &&& forall|k: int| 0 <= k < ls.len() ==> o[k + lists_after_text(ls, rs, k)] == ls[k]
            &&& forall|k: int| 0 <= k < ls.len() && #[trigger] list_after_text(ls, rs, k) ==> o[k
                + lists_after_text(ls, rs, k) - 1] == Seq::<char>::empty()
        }),
{
    let ls = lines(content);
    lemma_loose_upto(ls, code_line_ranges(ls), ls.len() as int);
}

} // verus!
