//! Quality checks of a processed text against its input: the issues found
//! (arrows or pipes inside text, lost lines or content, unclosed box
//! corners) and the counts that the quality scores are computed from.

use vstd::prelude::*;

use crate::text::{
    byte_len, chars_of, join_lines, join_lines_vec, lines, split_lines, split_state,
    string_of, strip_cr, trim, trim_end, trim_end_vec, trim_vec,
};
use crate::transformation_analysis::{alphabetic, char_is_alphabetic, is_arrow};

verus! {

/// Types of content that can be lost
#[derive(Debug, Clone, Copy, PartialEq, Eq, Structural)]
pub enum LostContent {
    TextLine,
    BoxBorder,
    Arrow,
    ConnectionLine,
    Label,
}

/// Types of structure corruption
#[derive(Debug, Clone, Copy, PartialEq, Eq, Structural)]
pub enum StructureType {
    MalformedBox,
    BrokenArrow,
    InvalidConnection,
    NestedConflict,
}

/// Types of visual inconsistencies
#[derive(Debug, Clone, Copy, PartialEq, Eq, Structural)]
pub enum Inconsistency {
    MisalignedBoxes,
    InconsistentSpacing,
    BorderOverlap,
    TextOverflow,
}

/// 2D point for location reporting
#[derive(Debug, Clone, Copy, PartialEq, Eq, Structural)]
pub struct Point {
    pub row: usize,
    pub col: usize,
}

/// Specific quality issues that can be detected
#[derive(Debug, Clone)]
pub enum QualityIssue {
    /// Text content was corrupted (e.g., arrows/pipes in text)
    TextCorruption { line: usize, expected: String, got: String },
    /// Content was lost entirely
    DataLoss { content_type: LostContent, line: usize },
    /// Structure corruption (e.g., malformed boxes)
    StructureCorruption { issue_type: StructureType, location: Point },
    /// Visual inconsistency (e.g., misaligned elements)
    VisualInconsistency { issue_type: Inconsistency, location: Point },
}

/// A quality issue as plain values.
pub enum QualityIssueV {
    TextCorruption { line: usize, expected: Seq<char>, got: Seq<char> },
    DataLoss { content_type: LostContent, line: usize },
    StructureCorruption { issue_type: StructureType, location: Point },
    VisualInconsistency { issue_type: Inconsistency, location: Point },
}

impl View for QualityIssue {
    type V = QualityIssueV;

    open spec fn view(&self) -> QualityIssueV {
        match self {
            QualityIssue::TextCorruption { line, expected, got } => QualityIssueV::TextCorruption {
                line: *line,
                expected: expected@,
                got: got@,
            },
            QualityIssue::DataLoss { content_type, line } => QualityIssueV::DataLoss {
                content_type: *content_type,
                line: *line,
            },
            QualityIssue::StructureCorruption { issue_type, location } => QualityIssueV::StructureCorruption {
                issue_type: *issue_type,
                location: *location,
            },
            QualityIssue::VisualInconsistency { issue_type, location } => QualityIssueV::VisualInconsistency {
                issue_type: *issue_type,
                location: *location,
            },
        }
    }
}

pub open spec fn issues_view(v: Seq<QualityIssue>) -> Seq<QualityIssueV> {
    v.map_values(|i: QualityIssue| i@)
}

// ---------------------------------------------------------------------
// Characters in text
// ---------------------------------------------------------------------

/// The character before `col` and the one after it are both in the line.
pub open spec fn has_neighbours(s: Seq<char>, col: int) -> bool {
    col != 0 && col < s.len() - 1
}

/// An arrow at `col` sits between two letters.
pub open spec fn arrow_corrupting_text(s: Seq<char>, col: int) -> bool {
    has_neighbours(s, col) && alphabetic(s[col - 1]) && alphabetic(s[col + 1])
}

/// A pipe at `col` sits between two letters, or after a letter and before
/// a space, or after a space and before a letter.
pub open spec fn pipe_in_text_content(s: Seq<char>, col: int) -> bool {
    &&& has_neighbours(s, col)
    &&& {
        let prev = s[col - 1];
        let next = s[col + 1];
        ||| (alphabetic(prev) && alphabetic(next))
        ||| (alphabetic(prev) && next == ' ')
        ||| (prev == ' ' && alphabetic(next))
    }
}

/// A pipe at `col` sits between letters or spaces.
pub open spec fn pipe_in_text(s: Seq<char>, col: int) -> bool {
    &&& has_neighbours(s, col)
    &&& (alphabetic(s[col - 1]) || s[col - 1] == ' ')
    &&& (alphabetic(s[col + 1]) || s[col + 1] == ' ')
}

fn neighbours(line_chars: &Vec<char>, col: usize) -> (b: bool)
    requires
        line_chars.len() > 0 || col == 0,
    ensures
        b == has_neighbours(line_chars@, col as int),
{
    !(col == 0 || col >= line_chars.len() - 1)
}

/// Check if an arrow appears to be corrupting text (replacing a letter)
pub fn is_arrow_corrupting_text(line_chars: &Vec<char>, col: usize) -> (b: bool)
    requires
        line_chars.len() > 0 || col == 0,
    ensures
        b == arrow_corrupting_text(line_chars@, col as int),
{
    if !neighbours(line_chars, col) {
        return false;
    }
    let prev = line_chars[col - 1];
    let next = line_chars[col + 1];
    char_is_alphabetic(prev) && char_is_alphabetic(next)
}

/// Check if a pipe appears to be in text content (not a legitimate border)
pub fn is_pipe_in_text_content(line_chars: &Vec<char>, col: usize) -> (b: bool)
    requires
        line_chars.len() > 0 || col == 0,
    ensures
        b == pipe_in_text_content(line_chars@, col as int),
{
    if !neighbours(line_chars, col) {
        return false;
    }
    let prev = line_chars[col - 1];
    let next = line_chars[col + 1];
    (char_is_alphabetic(prev) && char_is_alphabetic(next)) || (char_is_alphabetic(prev) && next == ' ') || (prev
        == ' ' && char_is_alphabetic(next))
}

/// Check if a pipe is corrupting text content
pub fn is_pipe_in_text(line_chars: &Vec<char>, col: usize) -> (b: bool)
    requires
        line_chars.len() > 0 || col == 0,
    ensures
        b == pipe_in_text(line_chars@, col as int),
{
    if !neighbours(line_chars, col) {
        return false;
    }
    let prev = line_chars[col - 1];
    let next = line_chars[col + 1];
    (char_is_alphabetic(prev) || prev == ' ') && (char_is_alphabetic(next) || next == ' ')
}

// ---------------------------------------------------------------------
// Text characters
// ---------------------------------------------------------------------

/// What `char::is_numeric` answers for a character.
pub uninterp spec fn numeric(c: char) -> bool;

/// `char::is_numeric`: whether the character has a Unicode numeric general
/// category; the contract names the answer and says nothing more of it.
#[verifier::external_body]
fn char_is_numeric(c: char) -> (b: bool)
    ensures
        b == numeric(c),
{
    c.is_numeric()
}

/// `char::is_ascii_punctuation`: `!` to `/`, `:` to `@`, `[` to `` ` ``,
/// `{` to `~`.
pub open spec fn ascii_punctuation(c: char) -> bool {
    ||| ('!' <= c && c <= '/')
    ||| (':' <= c && c <= '@')
    ||| ('[' <= c && c <= '`')
    ||| ('{' <= c && c <= '~')
}

fn is_ascii_punctuation(c: char) -> (b: bool)
    ensures
        b == ascii_punctuation(c),
{
    ('!' <= c && c <= '/') || (':' <= c && c <= '@') || ('[' <= c && c <= '`') || ('{' <= c && c <= '~')
}

/// A text character: a letter, a number, ASCII punctuation or a space.
pub open spec fn text_char(c: char) -> bool {
    alphabetic(c) || numeric(c) || ascii_punctuation(c) || c == ' '
}

/// The number of text characters in a line.
pub open spec fn count_text(s: Seq<char>) -> nat
    decreases s.len(),
{
    if s.len() == 0 {
        0
    } else {
        count_text(s.drop_last()) + if text_char(s.last()) { 1nat } else { 0nat }
    }
}

/// The number of text characters over lines.
pub open spec fn count_text_lines(ls: Seq<Seq<char>>) -> nat
    decreases ls.len(),
{
    if ls.len() == 0 {
        0
    } else {
        count_text_lines(ls.drop_last()) + count_text(ls.last())
    }
}

/// The characters of all lines together.
pub open spec fn total_len(ls: Seq<Seq<char>>) -> nat
    decreases ls.len(),
{
    if ls.len() == 0 {
        0
    } else {
        total_len(ls.drop_last()) + ls.last().len()
    }
}

proof fn lemma_split_total(s: Seq<char>)
    ensures
        total_len(split_state(s).0) + split_state(s).1.len() <= s.len(),
    decreases s.len(),
{
    if s.len() > 0 {
        lemma_split_total(s.drop_last());
        let (done, cur) = split_state(s.drop_last());
        if s.last() == '\n' {
            assert(done.push(strip_cr(cur)).drop_last() =~= done);
        }
    }
}

/// The lines of a text hold no more characters than the text.
proof fn lemma_lines_total(s: Seq<char>)
    ensures
        total_len(lines(s)) <= s.len(),
{
    lemma_split_total(s);
    let (done, cur) = split_state(s);
    if cur.len() > 0 {
        assert(done.push(cur).drop_last() =~= done);
    }
}

proof fn lemma_total_take(ls: Seq<Seq<char>>, k: int)
    requires
        0 <= k <= ls.len(),
    ensures
        total_len(ls.take(k)) <= total_len(ls),
    decreases ls.len(),
{
    if k == ls.len() {
        assert(ls.take(k) =~= ls);
    } else {
        lemma_total_take(ls.drop_last(), k);
        assert(ls.drop_last().take(k) =~= ls.take(k));
    }
}

fn count_line_text(line: &Vec<char>) -> (n: usize)
    ensures
        n == count_text(line@),
        n <= line@.len(),
{
    let mut n: usize = 0;
    let mut i: usize = 0;
    while i < line.len()
        invariant
            i <= line.len(),
            n == count_text(line@.take(i as int)),
            n <= i,
        decreases line.len() - i,
    {
        assert(line@.take(i as int + 1).drop_last() =~= line@.take(i as int));
        let c = line[i];
        if char_is_alphabetic(c) || char_is_numeric(c) || is_ascii_punctuation(c) || c == ' ' {
            n = n + 1;
        }
        i = i + 1;
    }
    assert(line@.take(line.len() as int) =~= line@);
    n
}

/// Count text characters (letters, numbers, punctuation, spaces) over the
/// lines of a text.
pub fn count_text_chars(text: &str) -> (n: usize)
    ensures
        n == count_text_lines(lines(text@)),
{
    let v = chars_of(text);
    let ls = split_lines(&v);
    let ghost l = lines(text@);
    proof {
        lemma_lines_total(text@);
    }
    let mut n: usize = 0;
    let mut i: usize = 0;
    while i < ls.len()
        invariant
            i <= ls.len(),
            ls@.len() == l.len(),
            forall|j: int| 0 <= j < l.len() ==> (#[trigger] ls@[j])@ == l[j],
            total_len(l) <= v@.len(),
            n == count_text_lines(l.take(i as int)),
            n <= total_len(l.take(i as int)),
        decreases ls.len() - i,
    {
        assert(l.take(i as int + 1).drop_last() =~= l.take(i as int));
        assert(l.take(i as int + 1).last() == l[i as int]);
        proof {
            lemma_total_take(l, i as int + 1);
        }
        let c = count_line_text(&ls[i]);
        assert(total_len(l.take(i as int + 1)) == total_len(l.take(i as int)) + l[i as int].len());
        assert(v@.len() == v.len());
        n = n + c;
        i = i + 1;
    }
    assert(l.take(ls.len() as int) =~= l);
    n
}

// ---------------------------------------------------------------------
// Data loss
// ---------------------------------------------------------------------

/// The bytes of all lines together.
pub open spec fn total_bytes(ls: Seq<Seq<char>>) -> nat
    decreases ls.len(),
{
    if ls.len() == 0 {
        0
    } else {
        total_bytes(ls.drop_last()) + byte_len(ls.last())
    }
}

/// Data loss: more than two lines were added, and, apart, the input held
/// more than 100 bytes and the output less than half of them.
pub open spec fn data_loss_spec(input: Seq<char>, output: Seq<char>) -> Seq<QualityIssueV> {
    let il = lines(input);
    let ol = lines(output);
    let grew = if ol.len() > il.len() + 2 {
        seq![QualityIssueV::DataLoss { content_type: LostContent::TextLine, line: il.len() as usize }]
    } else {
        Seq::empty()
    };
    let isz = total_bytes(il);
    let osz = total_bytes(ol);
    let shrank = if isz > 100 && osz < isz / 2 {
        seq![QualityIssueV::DataLoss { content_type: LostContent::TextLine, line: 0 }]
    } else {
        Seq::empty()
    };
    grew + shrank
}

proof fn lemma_total_bytes(ls: Seq<Seq<char>>)
    ensures
        total_bytes(ls) <= 4 * total_len(ls),
    decreases ls.len(),
{
    if ls.len() > 0 {
        lemma_total_bytes(ls.drop_last());
        crate::text::lemma_byte_len_bounds(ls.last());
    }
}

/// The bytes of the lines of a text.
fn lines_bytes(lines_v: &Vec<Vec<char>>, Ghost(l): Ghost<Seq<Seq<char>>>) -> (n: u128)
    requires
        lines_v@.len() == l.len(),
        forall|j: int| 0 <= j < l.len() ==> (#[trigger] lines_v@[j])@ == l[j],
        total_len(l) <= usize::MAX,
    ensures
        n == total_bytes(l),
{
    proof {
        lemma_total_bytes(l);
    }
    let mut n: u128 = 0;
    let mut i: usize = 0;
    while i < lines_v.len()
        invariant
            i <= lines_v.len(),
            lines_v@.len() == l.len(),
            forall|j: int| 0 <= j < l.len() ==> (#[trigger] lines_v@[j])@ == l[j],
            total_bytes(l) <= 4 * total_len(l),
            total_len(l) <= usize::MAX,
            n == total_bytes(l.take(i as int)),
        decreases lines_v.len() - i,
    {
        assert(l.take(i as int + 1).drop_last() =~= l.take(i as int));
        assert(l.take(i as int + 1).last() == l[i as int]);
        proof {
            lemma_total_bytes(l.take(i as int + 1));
            lemma_total_take(l, i as int + 1);
        }
        let b = crate::fences::byte_len_wide(&lines_v[i]);
        n = n + b;
        i = i + 1;
    }
    assert(l.take(lines_v.len() as int) =~= l);
    n
}

/// Check for data loss: the issues found.
pub fn check_data_loss(input: &str, output: &str) -> (r: Vec<QualityIssue>)
    ensures
        issues_view(r@) == data_loss_spec(input@, output@),
{
    let iv = chars_of(input);
    let ov = chars_of(output);
    let il = split_lines(&iv);
    let ol = split_lines(&ov);
    proof {
        lemma_lines_total(input@);
        lemma_lines_total(output@);
    }
    let mut r: Vec<QualityIssue> = Vec::new();
    let line_diff = if ol.len() > il.len() { ol.len() - il.len() } else { 0 };
    if line_diff > 2 {
        r.push(QualityIssue::DataLoss { content_type: LostContent::TextLine, line: il.len() });
    }
    assert(iv@.len() == iv.len() && ov@.len() == ov.len());
    let input_content_size = lines_bytes(&il, Ghost(lines(input@)));
    let output_content_size = lines_bytes(&ol, Ghost(lines(output@)));
    let ghost first = issues_view(r@);
    if input_content_size > 100 && output_content_size < input_content_size / 2 {
        r.push(QualityIssue::DataLoss { content_type: LostContent::TextLine, line: 0 });
    }
    assert(issues_view(r@) =~= data_loss_spec(input@, output@));
    r
}

// ---------------------------------------------------------------------
// Text corruption
// ---------------------------------------------------------------------

/// The corruption found at a character of line `li`: an arrow between
/// letters, or a pipe in text.
pub open spec fn corruption_at(s: Seq<char>, li: usize, col: int) -> Seq<QualityIssueV> {
    let c = s[col];
    if (is_arrow(c) && arrow_corrupting_text(s, col)) || (c == '│' && pipe_in_text_content(s, col)) {
        seq![QualityIssueV::TextCorruption { line: li, expected: "text content"@, got: seq![c] }]
    } else {
        Seq::empty()
    }
}

/// The corruptions found in the first `k` characters of line `li`.
pub open spec fn line_corruptions(s: Seq<char>, li: usize, k: int) -> Seq<QualityIssueV>
    decreases k,
{
    if k <= 0 {
        Seq::empty()
    } else {
        line_corruptions(s, li, k - 1) + corruption_at(s, li, k - 1)
    }
}

/// The corruptions found in the first `k` lines.
pub open spec fn corruptions(ls: Seq<Seq<char>>, k: int) -> Seq<QualityIssueV>
    decreases k,
{
    if k <= 0 {
        Seq::empty()
    } else {
        corruptions(ls, k - 1) + line_corruptions(ls[k - 1], (k - 1) as usize, ls[k - 1].len() as int)
    }
}

/// Check for text corruption (arrows/pipes appearing in text content): the
/// issues found, line by line and character by character.
pub fn text_corruption_issues(output: &str) -> (r: Vec<QualityIssue>)
    ensures
        issues_view(r@) == corruptions(lines(output@), lines(output@).len() as int),
{
    let ov = chars_of(output);
    let ls = split_lines(&ov);
    let ghost l = lines(output@);
    let mut r: Vec<QualityIssue> = Vec::new();
    let mut li: usize = 0;
    while li < ls.len()
        invariant
            li <= ls.len(),
            ls@.len() == l.len(),
            forall|j: int| 0 <= j < l.len() ==> (#[trigger] ls@[j])@ == l[j],
            issues_view(r@) == corruptions(l, li as int),
        decreases ls.len() - li,
    {
        let chars = &ls[li];
        let ghost s = l[li as int];
        let ghost before = issues_view(r@);
        let mut col: usize = 0;
        while col < chars.len()
            invariant
                col <= chars.len(),
                chars@ == s,
                issues_view(r@) == before + line_corruptions(s, li, col as int),
            decreases chars.len() - col,
        {
            let ch = chars[col];
            let ghost pre = issues_view(r@);
            if (crate::transformation_analysis::is_arrow_exec(ch) && is_arrow_corrupting_text(chars, col)) || (ch == '│'
                && is_pipe_in_text_content(chars, col)) {
                let one = vec![ch];
                assert(one@ =~= seq![ch]);
                let got = string_of(&one);
                let expected = string_of(&chars_of("text content"));
                r.push(QualityIssue::TextCorruption { line: li, expected, got });
                assert(issues_view(r@) =~= pre + corruption_at(s, li, col as int));
            } else {
                assert(pre + corruption_at(s, li, col as int) =~= pre);
            }
            assert(before + line_corruptions(s, li, col as int + 1) =~= pre + corruption_at(s, li, col as int));
            col = col + 1;
        }
        li = li + 1;
    }
    r
}

// ---------------------------------------------------------------------
// Visual consistency
// ---------------------------------------------------------------------

/// A line with a `┌` and no `┐`.
pub fn has_unclosed_corner(line: &str) -> (b: bool)
    ensures
        b == (line@.contains('┌') && !line@.contains('┐')),
{
    let v = chars_of(line);
    let mut open = false;
    let mut close = false;
    let mut i: usize = 0;
    while i < v.len()
        invariant
            i <= v.len(),
            v@ == line@,
            open == exists|j: int| 0 <= j < i && v@[j] == '┌',
            close == exists|j: int| 0 <= j < i && v@[j] == '┐',
        decreases v.len() - i,
    {
        if v[i] == '┌' {
            open = true;
        }
        if v[i] == '┐' {
            close = true;
        }
        i = i + 1;
    }
    open && !close
}

/// The number of spaces in a line.
pub open spec fn count_spaces(s: Seq<char>) -> nat
    decreases s.len(),
{
    if s.len() == 0 {
        0
    } else {
        count_spaces(s.drop_last()) + if s.last() == ' ' { 1nat } else { 0nat }
    }
}

proof fn lemma_count_spaces(s: Seq<char>)
    ensures
        count_spaces(s) <= s.len(),
    decreases s.len(),
{
    if s.len() > 0 {
        lemma_count_spaces(s.drop_last());
    }
}

/// The spaces of a line and its other characters.
pub fn space_counts(line: &str) -> (r: (usize, usize))
    ensures
        r.0 == count_spaces(line@),
        r.1 == line@.len() - count_spaces(line@),
{
    let v = chars_of(line);
    let mut spaces: usize = 0;
    let mut i: usize = 0;
    while i < v.len()
        invariant
            i <= v.len(),
            v@ == line@,
            spaces == count_spaces(v@.take(i as int)),
            spaces <= i,
        decreases v.len() - i,
    {
        assert(v@.take(i as int + 1).drop_last() =~= v@.take(i as int));
        if v[i] == ' ' {
            spaces = spaces + 1;
        }
        i = i + 1;
    }
    assert(v@.take(v.len() as int) =~= v@);
    (spaces, v.len() - spaces)
}

// ---------------------------------------------------------------------
// Comparing outputs
// ---------------------------------------------------------------------

/// The text with each line's trailing whitespace dropped, lines joined by
/// `'\n'`, and the whole trimmed.
pub open spec fn normalized_output(s: Seq<char>) -> Seq<char> {
    trim(join_lines(lines(s).map_values(|l: Seq<char>| trim_end(l))))
}

/// Normalize output for comparison (strip trailing whitespace, normalize line endings)
pub fn normalize_output(output: &str) -> (r: String)
    ensures
        r@ == normalized_output(output@),
{
    let v = chars_of(output);
    let ls = split_lines(&v);
    let ghost l = lines(output@);
    let mut trimmed: Vec<Vec<char>> = Vec::new();
    let mut i: usize = 0;
    while i < ls.len()
        invariant
            i <= ls.len(),
            ls@.len() == l.len(),
            forall|j: int| 0 <= j < l.len() ==> (#[trigger] ls@[j])@ == l[j],
            trimmed@.len() == i,
            forall|j: int| 0 <= j < i ==> (#[trigger] trimmed@[j])@ == trim_end(l[j]),
        decreases ls.len() - i,
    {
        trimmed.push(trim_end_vec(&ls[i]));
        i = i + 1;
    }
    let joined = join_lines_vec(&trimmed);
    assert(trimmed@.map_values(|x: Vec<char>| x@) =~= l.map_values(|x: Seq<char>| trim_end(x)));
    let t = trim_vec(&joined);
    string_of(&t)
}

} // verus!
