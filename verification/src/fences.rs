//! Code fence boundary validation and repair.
//!
//! This module detects, validates, and repairs code fence markers in Markdown.
//! It handles both backtick and tilde fences, detects issues like
//! mismatched lengths and unclosed blocks, and repairs them conservatively.

use vstd::prelude::*;

use crate::primitives::copy_string;
use crate::text::{
    byte_len, chars_of, join_lines, join_lines_vec, lines,
    slice_vec, split_lines, starts_with, starts_with_vec, string_of, trim, trim_start,
    trim_start_vec, trim_vec, lemma_trail_ws_bound, lemma_lead_ws_bound, append_chars,
};

verus! {

/// Type of fence marker (backtick or tilde).
#[derive(Debug, Clone, Copy, PartialEq, Eq, Structural)]
pub enum FenceType {
    /// Backtick fence
    Backtick,
    /// Tilde fence
    Tilde,
}

/// A fence marker (opening or closing).
#[derive(Debug, PartialEq, Eq)]
pub struct FenceMarker {
    /// Line number (0-indexed)
    pub line_num: usize,
    /// Fence type (backtick or tilde)
    pub fence_type: FenceType,
    /// Number of fence characters (3 or more)
    pub length: usize,
    /// Language specifier (e.g., "python")
    pub language: Option<String>,
    /// Whether this is an opening fence
    pub is_opening: bool,
}

/// Mathematical value of a [`FenceMarker`].
pub struct FenceMarkerV {
    pub line_num: usize,
    pub fence_type: FenceType,
    pub length: usize,
    pub language: Option<Seq<char>>,
    pub is_opening: bool,
}

/// The view of an optional text.
pub open spec fn opt_view(o: Option<String>) -> Option<Seq<char>> {
    match o {
        Some(s) => Some(s@),
        None => None,
    }
}

impl View for FenceMarker {
    type V = FenceMarkerV;

    open spec fn view(&self) -> FenceMarkerV {
        FenceMarkerV {
            line_num: self.line_num,
            fence_type: self.fence_type,
            length: self.length,
            language: opt_view(self.language),
            is_opening: self.is_opening,
        }
    }
}

fn copy_opt_string(o: &Option<String>) -> (r: Option<String>)
    ensures
        opt_view(r) == opt_view(*o),
{
    match o {
        Some(s) => Some(copy_string(s)),
        None => None,
    }
}

impl FenceMarker {
    /// An equal copy of the marker.
    pub fn copy(&self) -> (r: FenceMarker)
        ensures
            r@ == self@,
    {
        FenceMarker {
            line_num: self.line_num,
            fence_type: self.fence_type,
            length: self.length,
            language: copy_opt_string(&self.language),
            is_opening: self.is_opening,
        }
    }
}

impl Clone for FenceMarker {
    fn clone(&self) -> (r: Self)
        ensures
            r@ == self@,
    {
        self.copy()
    }
}

/// A code block with opening and optional closing fence.
#[derive(Debug)]
pub struct CodeBlock {
    /// Opening fence marker
    pub opening: FenceMarker,
    /// Closing fence marker (None if unclosed)
    pub closing: Option<FenceMarker>,
}

/// Mathematical value of a [`CodeBlock`].
pub struct CodeBlockV {
    pub opening: FenceMarkerV,
    pub closing: Option<FenceMarkerV>,
}

/// The view of an optional marker.
pub open spec fn opt_marker_view(o: Option<FenceMarker>) -> Option<FenceMarkerV> {
    match o {
        Some(m) => Some(m@),
        None => None,
    }
}

impl View for CodeBlock {
    type V = CodeBlockV;

    open spec fn view(&self) -> CodeBlockV {
        CodeBlockV { opening: self.opening@, closing: opt_marker_view(self.closing) }
    }
}

impl CodeBlock {
    /// An equal copy of the block.
    pub fn copy(&self) -> (r: CodeBlock)
        ensures
            r@ == self@,
    {
        CodeBlock {
            opening: self.opening.copy(),
            closing: match &self.closing {
                Some(m) => Some(m.copy()),
                None => None,
            },
        }
    }
}

impl Clone for CodeBlock {
    fn clone(&self) -> (r: Self)
        ensures
            r@ == self@,
    {
        self.copy()
    }
}

/// Fence validation issue.
#[derive(Debug, PartialEq, Eq)]
pub enum FenceIssue {
    /// Unclosed fence (no matching closing marker)
    Unclosed { opening: FenceMarker },
    /// Length mismatch between opening and closing
    LengthMismatch { opening: FenceMarker, closing: FenceMarker },
    /// Type mismatch (backticks vs tildes)
    TypeMismatch { opening: FenceMarker, closing: FenceMarker },
}

/// Mathematical value of a [`FenceIssue`].
pub enum FenceIssueV {
    Unclosed { opening: FenceMarkerV },
    LengthMismatch { opening: FenceMarkerV, closing: FenceMarkerV },
    TypeMismatch { opening: FenceMarkerV, closing: FenceMarkerV },
}

impl View for FenceIssue {
    type V = FenceIssueV;

    open spec fn view(&self) -> FenceIssueV {
        match self {
            FenceIssue::Unclosed { opening } => FenceIssueV::Unclosed { opening: opening@ },
            FenceIssue::LengthMismatch { opening, closing } => FenceIssueV::LengthMismatch {
                opening: opening@,
                closing: closing@,
            },
            FenceIssue::TypeMismatch { opening, closing } => FenceIssueV::TypeMismatch {
                opening: opening@,
                closing: closing@,
            },
        }
    }
}

impl FenceIssue {
    /// An equal copy of the issue.
    pub fn copy(&self) -> (r: FenceIssue)
        ensures
            r@ == self@,
    {
        match self {
            FenceIssue::Unclosed { opening } => FenceIssue::Unclosed { opening: opening.copy() },
            FenceIssue::LengthMismatch { opening, closing } => FenceIssue::LengthMismatch {
                opening: opening.copy(),
                closing: closing.copy(),
            },
            FenceIssue::TypeMismatch { opening, closing } => FenceIssue::TypeMismatch {
                opening: opening.copy(),
                closing: closing.copy(),
            },
        }
    }
}

impl Clone for FenceIssue {
    fn clone(&self) -> (r: Self)
        ensures
            r@ == self@,
    {
        self.copy()
    }
}

// ---------------------------------------------------------------------------
// Detection
// ---------------------------------------------------------------------------

/// The fence character of a fence type.
pub open spec fn fence_char(t: FenceType) -> char {
    match t {
        FenceType::Backtick => '`',
        FenceType::Tilde => '~',
    }
}

/// Index of the first `ch` in `s`.
pub open spec fn first_index_of(s: Seq<char>, ch: char) -> Option<int>
    decreases s.len(),
{
    if s.len() == 0 {
        None
    } else if s[0] == ch {
        Some(0)
    } else {
        match first_index_of(s.drop_first(), ch) {
            Some(i) => Some(i + 1),
            None => None,
        }
    }
}

/// Number of `ch` at the start of `s`.
pub open spec fn run_len(s: Seq<char>, ch: char) -> nat
    decreases s.len(),
{
    if s.len() > 0 && s[0] == ch {
        1 + run_len(s.drop_first(), ch)
    } else {
        0
    }
}

/// The fence a trimmed line opens with, if it starts with three `ch` (a
/// fence stands alone on its line): its length and the language after it.
pub open spec fn fence_at(t: Seq<char>, ch: char) -> Option<(nat, Option<Seq<char>>)> {
    if starts_with(t, seq![ch, ch, ch]) {
        let n = run_len(t, ch);
        let rest = trim_start(t.skip(n as int));
        Some((n, if rest.len() == 0 { None } else { Some(rest) }))
    } else {
        None
    }
}

/// The fence on a line: backticks are tried first, then tildes.
pub open spec fn parse_fence(line: Seq<char>) -> Option<(FenceType, nat, Option<Seq<char>>)> {
    let t = trim(line);
    match fence_at(t, '`') {
        Some((n, lang)) => Some((FenceType::Backtick, n, lang)),
        None => match fence_at(t, '~') {
            Some((n, lang)) => Some((FenceType::Tilde, n, lang)),
            None => None,
        },
    }
}

/// The markers of the first `k` lines.
pub open spec fn markers_upto(ls: Seq<Seq<char>>, k: int) -> Seq<FenceMarkerV>
    decreases k,
{
    if k <= 0 {
        Seq::empty()
    } else {
        let prev = markers_upto(ls, k - 1);
        match parse_fence(ls[k - 1]) {
            Some((t, n, lang)) => prev.push(
                FenceMarkerV {
                    line_num: (k - 1) as usize,
                    fence_type: t,
                    length: n as usize,
                    language: lang,
                    is_opening: false,
                },
            ),
            None => prev,
        }
    }
}

/// The fence markers of a text, one per line at most.
pub open spec fn markers_spec(content: Seq<char>) -> Seq<FenceMarkerV> {
    markers_upto(lines(content), lines(content).len() as int)
}

/// The views of markers.
pub open spec fn markers_view(v: Seq<FenceMarker>) -> Seq<FenceMarkerV> {
    v.map_values(|m: FenceMarker| m@)
}

pub proof fn lemma_first_index_of(s: Seq<char>, ch: char)
    ensures
        match first_index_of(s, ch) {
            Some(i) => 0 <= i < s.len() && s[i] == ch && forall|j: int| 0 <= j < i ==> s[j] != ch,
            None => forall|j: int| 0 <= j < s.len() ==> s[j] != ch,
        },
    decreases s.len(),
{
    if s.len() > 0 && s[0] != ch {
        lemma_first_index_of(s.drop_first(), ch);
        assert forall|j: int| 1 <= j < s.len() implies s[j] == s.drop_first()[j - 1] by {}
    }
}

proof fn lemma_run_len(s: Seq<char>, ch: char, n: int)
    requires
        0 <= n <= s.len(),
        forall|j: int| 0 <= j < n ==> s[j] == ch,
        n == s.len() || s[n] != ch,
    ensures
        run_len(s, ch) == n,
    decreases n,
{
    if n > 0 {
        assert forall|j: int| 0 <= j < n - 1 implies s.drop_first()[j] == ch by {
            assert(s.drop_first()[j] == s[j + 1]);
        }
        if n < s.len() {
            assert(s.drop_first()[n - 1] == s[n]);
        }
        lemma_run_len(s.drop_first(), ch, n - 1);
    }
}

/// The fence a trimmed line opens with, computed.
fn fence_at_exec(t: &Vec<char>, ch: char) -> (r: Option<(usize, Option<String>)>)
    ensures
        match (r, fence_at(t@, ch)) {
            (Some((n, lang)), Some((n2, lang2))) => n == n2 && opt_view(lang) == lang2,
            (None, None) => true,
            _ => false,
        },
{
    let f = t;
    let pat: Vec<char> = vec![ch, ch, ch];
    if !starts_with_vec(&f, &pat) {
        return None;
    }
    let mut n: usize = 0;
    while n < f.len() && f[n] == ch
        invariant
            n <= f@.len(),
            forall|j: int| 0 <= j < n ==> f@[j] == ch,
        decreases f@.len() - n,
    {
        n += 1;
    }
    proof {
        lemma_run_len(f@, ch, n as int);
    }
    let after = slice_vec(&f, n, f.len());
    proof {
        assert(after@ =~= f@.skip(n as int));
    }
    let rest = trim_start_vec(&after);
    let language = if rest.len() == 0 {
        None
    } else {
        Some(string_of(&rest))
    };
    Some((n, language))
}

/// Detect all fence markers in content.
///
/// A line whose trimmed text starts with three or more backticks is a
/// backtick fence; otherwise one that starts with three or more tildes is a
/// tilde fence. The text after the run, with leading
/// whitespace dropped, is the language.
pub fn detect_fence_markers(content: &str) -> (markers: Vec<FenceMarker>)
    ensures
        markers_view(markers@) == markers_spec(content@),
{
    let ls = split_lines(&chars_of(content));
    let ghost lv = lines(content@);
    let mut markers: Vec<FenceMarker> = Vec::new();
    let mut line_num: usize = 0;
    while line_num < ls.len()
        invariant
            line_num <= ls@.len(),
            ls@.len() == lv.len(),
            forall|k: int| 0 <= k < ls@.len() ==> (#[trigger] ls@[k])@ == lv[k],
            markers_view(markers@) == markers_upto(lv, line_num as int),
        decreases ls@.len() - line_num,
    {
        let trimmed = trim_vec(&ls[line_num]);
        proof {
            assert(lv[line_num as int] == ls@[line_num as int]@);
        }
        let ghost before = markers_view(markers@);
        match fence_at_exec(&trimmed, '`') {
            Some((length, language)) => {
                markers.push(FenceMarker { line_num, fence_type: FenceType::Backtick, length, language, is_opening: false });
                proof {
                    assert(markers_view(markers@) =~= before.push(markers@[markers@.len() - 1]@));
                }
            },
            None => {
                match fence_at_exec(&trimmed, '~') {
                    Some((length, language)) => {
                        markers.push(FenceMarker { line_num, fence_type: FenceType::Tilde, length, language, is_opening: false });
                        proof {
                            assert(markers_view(markers@) =~= before.push(markers@[markers@.len() - 1]@));
                        }
                    },
                    None => {},
                }
            },
        }
        line_num += 1;
    }
    markers
}

// ---------------------------------------------------------------------------
// Stable sorting by a key
// ---------------------------------------------------------------------------

/// Where `a` goes into `s`: after the last element whose key is not above
/// the key of `a`.
pub open spec fn ins_pos<A>(s: Seq<A>, a: A, key: spec_fn(A) -> int) -> int
    decreases s.len(),
{
    if s.len() == 0 {
        0
    } else if key(a) < key(s.last()) {
        ins_pos(s.drop_last(), a, key)
    } else {
        s.len() as int
    }
}

/// The elements in stable order of their keys.
pub open spec fn sort_by<A>(s: Seq<A>, key: spec_fn(A) -> int) -> Seq<A>
    decreases s.len(),
{
    if s.len() == 0 {
        Seq::empty()
    } else {
        let t = sort_by(s.drop_last(), key);
        t.insert(ins_pos(t, s.last(), key), s.last())
    }
}

proof fn lemma_ins_pos<A>(s: Seq<A>, a: A, key: spec_fn(A) -> int)
    ensures
        0 <= ins_pos(s, a, key) <= s.len(),
        forall|q: int| ins_pos(s, a, key) <= q < s.len() ==> key(a) < key(#[trigger] s[q]),
        ins_pos(s, a, key) > 0 ==> !(key(a) < key(s[ins_pos(s, a, key) - 1])),
    decreases s.len(),
{
    if s.len() > 0 {
        lemma_ins_pos(s.drop_last(), a, key);
        assert forall|q: int| 0 <= q < s.len() - 1 implies #[trigger] s[q] == s.drop_last()[q] by {}
    }
}

/// A position with every later key above the key of `a`, and the key just
/// before it not above, is `ins_pos`.
proof fn lemma_ins_pos_unique<A>(s: Seq<A>, a: A, key: spec_fn(A) -> int, p: int)
    requires
        0 <= p <= s.len(),
        forall|q: int| p <= q < s.len() ==> key(a) < key(#[trigger] s[q]),
        p > 0 ==> !(key(a) < key(s[p - 1])),
    ensures
        p == ins_pos(s, a, key),
{
    lemma_ins_pos(s, a, key);
    let ip = ins_pos(s, a, key);
    if p < ip {
        assert(key(a) < key(s[ip - 1]));
    } else if p > ip {
        assert(key(a) < key(s[p - 1]));
    }
}

// ---------------------------------------------------------------------------
// Pairing
// ---------------------------------------------------------------------------

/// The marker can close a fence opened by `top`: same type, at least as long.
pub open spec fn closes(top: FenceMarkerV, m: FenceMarkerV) -> bool {
    m.fence_type == top.fence_type && m.length >= top.length
}

/// The marker flagged as opening or not.
pub open spec fn flagged(m: FenceMarkerV, opening: bool) -> FenceMarkerV {
    FenceMarkerV {
        line_num: m.line_num,
        fence_type: m.fence_type,
        length: m.length,
        language: m.language,
        is_opening: opening,
    }
}

/// A later fence closes `m` over at least one line of content: no
/// language, same type, at least as long, and not on the very next line.
pub open spec fn closes_with_content(m: FenceMarkerV, next: Option<FenceMarkerV>) -> bool {
    next matches Some(n) && n.language is None && closes(m, n) && n.line_num > m.line_num + 1
}

/// A stray closing fence: with no fence open, a fence without a language
/// of the same type on the line right after a closing fence (or after
/// another stray one) that the next fence would not close over content.
pub open spec fn duplicate_closer(
    st: Seq<FenceMarkerV>,
    last: Option<(usize, FenceType)>,
    m: FenceMarkerV,
    next: Option<FenceMarkerV>,
) -> bool {
    &&& st.len() == 0
    &&& m.language is None
    &&& last matches Some((l, t)) && t == m.fence_type && m.line_num == l + 1
    &&& !closes_with_content(m, next)
}

/// The marker after the first `k`, if any.
pub open spec fn next_marker(ms: Seq<FenceMarkerV>, k: int) -> Option<FenceMarkerV> {
    if 0 <= k < ms.len() {
        Some(ms[k])
    } else {
        None
    }
}

/// The pairing that repair uses, after the first `k` markers: as
/// [`pair_upto`], but stray closing fences are set aside. Gives the stack
/// of open fences, the closed blocks, the line and type of the fence just
/// closed or set aside (none after an opening fence), and the lines of the
/// stray fences.
pub open spec fn scan_upto(ms: Seq<FenceMarkerV>, k: int) -> (
    Seq<FenceMarkerV>,
    Seq<CodeBlockV>,
    Option<(usize, FenceType)>,
    Seq<usize>,
)
    decreases k,
{
    if k <= 0 {
        (Seq::empty(), Seq::empty(), None, Seq::empty())
    } else {
        let (st, bs, last, drops) = scan_upto(ms, k - 1);
        let m = ms[k - 1];
        if st.len() > 0 && closes(st.last(), m) {
            (
                st.drop_last(),
                bs.push(CodeBlockV { opening: flagged(st.last(), true), closing: Some(flagged(m, false)) }),
                Some((m.line_num, m.fence_type)),
                drops,
            )
        } else if duplicate_closer(st, last, m, next_marker(ms, k)) {
            (st, bs, Some((m.line_num, m.fence_type)), drops.push(m.line_num))
        } else {
            (st.push(flagged(m, true)), bs, None, drops)
        }
    }
}

/// The pairing after the first `k` markers: the stack of open fences and
/// the closed blocks.
pub open spec fn pair_upto(ms: Seq<FenceMarkerV>, k: int) -> (Seq<FenceMarkerV>, Seq<CodeBlockV>)
    decreases k,
{
    if k <= 0 {
        (Seq::empty(), Seq::empty())
    } else {
        let (st, bs) = pair_upto(ms, k - 1);
        let m = ms[k - 1];
        if st.len() > 0 && closes(st.last(), m) {
            (
                st.drop_last(),
                bs.push(CodeBlockV { opening: flagged(st.last(), true), closing: Some(flagged(m, false)) }),
            )
        } else {
            (st.push(flagged(m, true)), bs)
        }
    }
}

/// The lines of the stray closing fences among the markers.
pub open spec fn duplicate_lines(ms: Seq<FenceMarkerV>) -> Seq<usize> {
    scan_upto(ms, ms.len() as int).3
}

/// Unclosed blocks for the fences left open, from the top of the stack down.
pub open spec fn unclosed_blocks(st: Seq<FenceMarkerV>) -> Seq<CodeBlockV>
    decreases st.len(),
{
    if st.len() == 0 {
        Seq::empty()
    } else {
        seq![CodeBlockV { opening: st.last(), closing: None }] + unclosed_blocks(st.drop_last())
    }
}

/// The line of a block's opening fence.
pub open spec fn block_line(b: CodeBlockV) -> int {
    b.opening.line_num as int
}

/// The code blocks of a list of markers: a marker closes the fence on top
/// of the stack when it has the same type and is at least as long, else it
/// opens a fence; fences left open are unclosed blocks; blocks come out in
/// stable order of their opening lines.
pub open spec fn pair_spec(ms: Seq<FenceMarkerV>) -> Seq<CodeBlockV> {
    let (st, bs) = pair_upto(ms, ms.len() as int);
    sort_by(bs + unclosed_blocks(st), |b: CodeBlockV| block_line(b))
}

/// The blocks that repair works on: the pairing with the stray closing
/// fences set aside.
pub open spec fn repair_pairs_spec(ms: Seq<FenceMarkerV>) -> Seq<CodeBlockV> {
    let (st, bs, _last, _drops) = scan_upto(ms, ms.len() as int);
    sort_by(bs + unclosed_blocks(st), |b: CodeBlockV| block_line(b))
}

/// A well-formed block: its opening is flagged as such; a closing fence
/// is not, is of the same type, at least as long, and on a later line.
pub open spec fn block_ok(b: CodeBlockV) -> bool {
    &&& b.opening.is_opening
    &&& (b.closing matches Some(c) ==> {
        &&& !c.is_opening
        &&& c.fence_type == b.opening.fence_type
        &&& c.length >= b.opening.length
        &&& c.line_num > b.opening.line_num
    })
}

/// The markers come on strictly increasing lines.
pub open spec fn lines_increase(ms: Seq<FenceMarkerV>) -> bool {
    forall|i: int, j: int| 0 <= i < j < ms.len() ==> (#[trigger] ms[i]).line_num < (#[trigger] ms[j]).line_num
}

proof fn lemma_pair_inv(ms: Seq<FenceMarkerV>, k: int)
    requires
        lines_increase(ms),
        0 <= k <= ms.len(),
    ensures
        ({
            let (st, bs) = pair_upto(ms, k);
            &&& forall|j: int| 0 <= j < st.len() ==> (#[trigger] st[j]).is_opening
            &&& forall|j: int, q: int| 0 <= j < st.len() && k <= q < ms.len() ==> (#[trigger] st[j]).line_num
                < (#[trigger] ms[q]).line_num
            &&& forall|j: int| 0 <= j < bs.len() ==> block_ok(#[trigger] bs[j])
        }),
    decreases k,
{
    if k > 0 {
        lemma_pair_inv(ms, k - 1);
        let (st, bs) = pair_upto(ms, k - 1);
        let m = ms[k - 1];
        if st.len() > 0 && closes(st.last(), m) {
            assert(st.last() == st[st.len() - 1]);
            assert(st.last().line_num < m.line_num);
            let nb = CodeBlockV { opening: flagged(st.last(), true), closing: Some(flagged(m, false)) };
            assert(block_ok(nb));
            assert forall|j: int| 0 <= j < bs.push(nb).len() implies block_ok(#[trigger] bs.push(nb)[j]) by {
                if j < bs.len() {
                    assert(bs.push(nb)[j] == bs[j]);
                }
            }
            let st2 = st.drop_last();
            assert forall|j: int| 0 <= j < st2.len() implies (#[trigger] st2[j]).is_opening by {
                assert(st2[j] == st[j]);
            }
            assert forall|j: int, q: int| 0 <= j < st2.len() && k <= q < ms.len() implies (#[trigger] st2[j]).line_num
                < (#[trigger] ms[q]).line_num by {
                assert(st2[j] == st[j]);
            }
        } else {
            let st2 = st.push(flagged(m, true));
            assert forall|j: int| 0 <= j < st2.len() implies (#[trigger] st2[j]).is_opening by {
                if j < st.len() {
                    assert(st2[j] == st[j]);
                }
            }
            assert forall|j: int, q: int| 0 <= j < st2.len() && k <= q < ms.len() implies (#[trigger] st2[j]).line_num
                < (#[trigger] ms[q]).line_num by {
                if j < st.len() {
                    assert(st2[j] == st[j]);
                } else {
                    assert(ms[k - 1].line_num < ms[q].line_num);
                }
            }
        }
    }
}

proof fn lemma_unclosed_ok(st: Seq<FenceMarkerV>)
    requires
        forall|j: int| 0 <= j < st.len() ==> (#[trigger] st[j]).is_opening,
    ensures
        unclosed_blocks(st).len() == st.len(),
        forall|j: int| 0 <= j < unclosed_blocks(st).len() ==> block_ok(#[trigger] unclosed_blocks(st)[j]),
    decreases st.len(),
{
    if st.len() > 0 {
        let d = st.drop_last();
        assert forall|j: int| 0 <= j < d.len() implies (#[trigger] d[j]).is_opening by {
            assert(d[j] == st[j]);
        }
        lemma_unclosed_ok(d);
        let u = unclosed_blocks(st);
        let h = CodeBlockV { opening: st.last(), closing: None };
        assert(st.last() == st[st.len() - 1]);
        assert forall|j: int| 0 <= j < u.len() implies block_ok(#[trigger] u[j]) by {
            if j == 0 {
                assert(u[0] == h);
            } else {
                assert(u[j] == unclosed_blocks(d)[j - 1]);
            }
        }
    }
}

/// Sorting keeps the elements and orders them by key.
proof fn lemma_sort_by<A>(s: Seq<A>, key: spec_fn(A) -> int)
    ensures
        sort_by(s, key).len() == s.len(),
        forall|x: A| #[trigger] sort_by(s, key).contains(x) <==> s.contains(x),
        forall|i: int, j: int| 0 <= i < j < s.len() ==> key(#[trigger] sort_by(s, key)[i]) <= key(#[trigger] sort_by(s, key)[j]),
    decreases s.len(),
{
    if s.len() > 0 {
        let d = s.drop_last();
        lemma_sort_by(d, key);
        let t = sort_by(d, key);
        let a = s.last();
        let p = ins_pos(t, a, key);
        lemma_ins_pos(t, a, key);
        let r = t.insert(p, a);
        assert(r == sort_by(s, key));
        assert forall|x: A| #[trigger] r.contains(x) <==> s.contains(x) by {
            if r.contains(x) {
                let i = choose|i: int| 0 <= i < r.len() && r[i] == x;
                if i < p {
                    assert(r[i] == t[i]);
                    assert(t.contains(x));
                    let q = choose|q: int| 0 <= q < d.len() && d[q] == x;
                    assert(s[q] == x);
                } else if i == p {
                    assert(s[s.len() - 1] == x);
                } else {
                    assert(r[i] == t[i - 1]);
                    assert(t.contains(x));
                    let q = choose|q: int| 0 <= q < d.len() && d[q] == x;
                    assert(s[q] == x);
                }
            }
            if s.contains(x) {
                let q = choose|q: int| 0 <= q < s.len() && s[q] == x;
                if q == s.len() - 1 {
                    assert(r[p] == x);
                } else {
                    assert(d[q] == x);
                    assert(d.contains(x));
                    assert(t.contains(x));
                    let i = choose|i: int| 0 <= i < t.len() && t[i] == x;
                    if i < p {
                        assert(r[i] == x);
                    } else {
                        assert(r[i + 1] == x);
                    }
                }
            }
        }
        assert forall|i: int, j: int| 0 <= i < j < s.len() implies key(#[trigger] r[i]) <= key(#[trigger] r[j]) by {
            if j < p {
                assert(r[i] == t[i] && r[j] == t[j]);
            } else if j == p {
                assert(r[j] == a);
                assert(r[i] == t[i]);
                if i < p - 1 {
                    assert(key(t[i]) <= key(t[p - 1]));
                }
            } else if i > p {
                assert(r[i] == t[i - 1] && r[j] == t[j - 1]);
            } else if i == p {
                assert(r[i] == a);
                assert(r[j] == t[j - 1]);
            } else {
                assert(r[i] == t[i] && r[j] == t[j - 1]);
            }
        }
    }
}

/// Pairing gives well-formed blocks sorted by their opening lines, for
/// markers on increasing lines (as `detect_fence_markers` finds them): each
/// block's opening is flagged as one; a closing fence is of the opening's
/// type, at least as long, and on a later line; blocks left open have no
/// closing fence.
pub proof fn law_pairing(ms: Seq<FenceMarkerV>)
    requires
        lines_increase(ms),
    ensures
        forall|i: int| 0 <= i < pair_spec(ms).len() ==> block_ok(#[trigger] pair_spec(ms)[i]),
        forall|i: int, j: int| 0 <= i < j < pair_spec(ms).len() ==> (#[trigger] pair_spec(ms)[i]).opening.line_num
            <= (#[trigger] pair_spec(ms)[j]).opening.line_num,
{
    lemma_pair_inv(ms, ms.len() as int);
    let (st, bs) = pair_upto(ms, ms.len() as int);
    lemma_unclosed_ok(st);
    let all = bs + unclosed_blocks(st);
    let key = |b: CodeBlockV| block_line(b);
    lemma_sort_by(all, key);
    let r = sort_by(all, key);
    assert(r == pair_spec(ms));
    assert forall|i: int| 0 <= i < r.len() implies block_ok(#[trigger] r[i]) by {
        assert(r.contains(r[i]));
        assert(all.contains(r[i]));
        let q = choose|q: int| 0 <= q < all.len() && all[q] == r[i];
        if q < bs.len() {
            assert(all[q] == bs[q]);
        } else {
            assert(all[q] == unclosed_blocks(st)[q - bs.len()]);
        }
    }
    assert forall|i: int, j: int| 0 <= i < j < r.len() implies (#[trigger] r[i]).opening.line_num <= (#[trigger] r[j]).opening.line_num by {
        assert(key(r[i]) <= key(r[j]));
    }
}

/// The markers of a block, opening first, as plain (unflagged) markers.
pub open spec fn markers_of_block(b: CodeBlockV) -> Seq<FenceMarkerV> {
    match b.closing {
        Some(c) => seq![flagged(b.opening, false), flagged(c, false)],
        None => seq![flagged(b.opening, false)],
    }
}

/// The markers of the blocks, block by block.
pub open spec fn block_markers(bs: Seq<CodeBlockV>) -> Seq<FenceMarkerV>
    decreases bs.len(),
{
    if bs.len() == 0 {
        Seq::empty()
    } else {
        block_markers(bs.drop_last()) + markers_of_block(bs.last())
    }
}

/// The markers, unflagged.
pub open spec fn unflagged(ms: Seq<FenceMarkerV>) -> Seq<FenceMarkerV> {
    ms.map_values(|m: FenceMarkerV| flagged(m, false))
}

proof fn lemma_ms_single(x: FenceMarkerV)
    ensures
        seq![x].to_multiset() =~= vstd::multiset::Multiset::empty().insert(x),
{
    let e = Seq::<FenceMarkerV>::empty();
    vstd::seq_lib::to_multiset_len(e);
    vstd::multiset::lemma_multiset_empty_len(e.to_multiset());
    vstd::seq_lib::to_multiset_build(e, x);
    assert(e.push(x) =~= seq![x]);
}

proof fn lemma_block_markers_one(x: CodeBlockV)
    ensures
        block_markers(seq![x]) == markers_of_block(x),
{
    assert(seq![x].drop_last() =~= Seq::<CodeBlockV>::empty());
    assert(seq![x].last() == x);
    assert(block_markers(Seq::<CodeBlockV>::empty()) == Seq::<FenceMarkerV>::empty());
    assert(Seq::<FenceMarkerV>::empty() + markers_of_block(x) =~= markers_of_block(x));
}

proof fn lemma_block_markers_add(a: Seq<CodeBlockV>, b: Seq<CodeBlockV>)
    ensures
        block_markers(a + b) == block_markers(a) + block_markers(b),
    decreases b.len(),
{
    if b.len() == 0 {
        assert(a + b =~= a);
        assert(block_markers(a) + block_markers(b) =~= block_markers(a));
    } else {
        lemma_block_markers_add(a, b.drop_last());
        assert((a + b).drop_last() =~= a + b.drop_last());
        assert((a + b).last() == b.last());
        assert(block_markers(a + b) =~= block_markers(a) + block_markers(b));
    }
}

proof fn lemma_block_markers_sort(s: Seq<CodeBlockV>, key: spec_fn(CodeBlockV) -> int)
    ensures
        block_markers(sort_by(s, key)).to_multiset() == block_markers(s).to_multiset(),
    decreases s.len(),
{
    if s.len() > 0 {
        let d = s.drop_last();
        let x = s.last();
        lemma_block_markers_sort(d, key);
        let t = sort_by(d, key);
        lemma_ins_pos(t, x, key);
        let p = ins_pos(t, x, key);
        let lo = t.take(p);
        let hi = t.skip(p);
        assert(t.insert(p, x) =~= (lo + seq![x]) + hi);
        assert(t =~= lo + hi);
        lemma_block_markers_add(lo + seq![x], hi);
        lemma_block_markers_add(lo, seq![x]);
        lemma_block_markers_add(lo, hi);
        lemma_block_markers_one(x);
        broadcast use vstd::multiset::group_multiset_axioms;
        let (bl, bx, bh) = (block_markers(lo), markers_of_block(x), block_markers(hi));
        vstd::seq_lib::lemma_multiset_commutative(bl + bx, bh);
        vstd::seq_lib::lemma_multiset_commutative(bl, bx);
        vstd::seq_lib::lemma_multiset_commutative(bl, bh);
        vstd::seq_lib::lemma_multiset_commutative(block_markers(d), bx);
        assert(block_markers(s) == block_markers(d) + bx);
        assert((bl + bx + bh).to_multiset() =~= (bl + bh).to_multiset().add(bx.to_multiset()));
    }
}

proof fn lemma_unclosed_markers(st: Seq<FenceMarkerV>)
    ensures
        block_markers(unclosed_blocks(st)).to_multiset() == unflagged(st).to_multiset(),
    decreases st.len(),
{
    if st.len() > 0 {
        let d = st.drop_last();
        lemma_unclosed_markers(d);
        let h = CodeBlockV { opening: st.last(), closing: None };
        assert(unclosed_blocks(st) == seq![h] + unclosed_blocks(d));
        lemma_block_markers_add(seq![h], unclosed_blocks(d));
        lemma_block_markers_one(h);
        assert(markers_of_block(h) =~= seq![flagged(st.last(), false)]);
        broadcast use vstd::multiset::group_multiset_axioms;
        assert(unflagged(st) =~= unflagged(d).push(flagged(st.last(), false)));
        vstd::seq_lib::lemma_multiset_commutative(seq![flagged(st.last(), false)], block_markers(unclosed_blocks(d)));
        vstd::seq_lib::to_multiset_build(unflagged(d), flagged(st.last(), false));
        lemma_ms_single(flagged(st.last(), false));
        assert(block_markers(unclosed_blocks(st)).to_multiset() =~= unflagged(st).to_multiset());
    } else {
        assert(unflagged(st) =~= Seq::<FenceMarkerV>::empty());
        assert(block_markers(unclosed_blocks(st)) =~= Seq::<FenceMarkerV>::empty());
    }
}

proof fn lemma_pair_markers(ms: Seq<FenceMarkerV>, k: int)
    requires
        0 <= k <= ms.len(),
    ensures
        ({
            let (st, bs) = pair_upto(ms, k);
            (block_markers(bs) + unflagged(st)).to_multiset() == unflagged(ms.take(k)).to_multiset()
        }),
    decreases k,
{
    if k == 0 {
        let (st, bs) = pair_upto(ms, k);
        assert(block_markers(bs) + unflagged(st) =~= Seq::<FenceMarkerV>::empty());
        assert(unflagged(ms.take(k)) =~= Seq::<FenceMarkerV>::empty());
    } else {
        lemma_pair_markers(ms, k - 1);
        let (st, bs) = pair_upto(ms, k - 1);
        let m = ms[k - 1];
        let um = flagged(m, false);
        assert(unflagged(ms.take(k)) =~= unflagged(ms.take(k - 1)).push(um));
        vstd::seq_lib::to_multiset_build(unflagged(ms.take(k - 1)), um);
        if st.len() > 0 && closes(st.last(), m) {
            let nb = CodeBlockV { opening: flagged(st.last(), true), closing: Some(flagged(m, false)) };
            let bs2 = bs.push(nb);
            let st2 = st.drop_last();
            assert(bs2.drop_last() =~= bs);
            assert(block_markers(bs2) == block_markers(bs) + seq![flagged(st.last(), false), um]);
            assert(unflagged(st) =~= unflagged(st2).push(flagged(st.last(), false)));
            broadcast use vstd::multiset::group_multiset_axioms;
            let a = block_markers(bs);
            let u2 = unflagged(st2);
            let ut = flagged(st.last(), false);
            vstd::seq_lib::lemma_multiset_commutative(a + seq![ut, um], u2);
            vstd::seq_lib::lemma_multiset_commutative(a, seq![ut, um]);
            vstd::seq_lib::lemma_multiset_commutative(a, u2.push(ut));
            vstd::seq_lib::to_multiset_build(u2, ut);
            vstd::seq_lib::to_multiset_build(seq![ut], um);
            lemma_ms_single(ut);
            assert(seq![ut].push(um) =~= seq![ut, um]);
            assert(block_markers(bs2) + u2 =~= (a + seq![ut, um]) + u2);
            assert((block_markers(bs2) + u2).to_multiset() =~= (block_markers(bs) + unflagged(st)).to_multiset().insert(um));
        } else {
            let st2 = st.push(flagged(m, true));
            assert(unflagged(st2) =~= unflagged(st).push(um));
            assert(block_markers(bs) + unflagged(st2) =~= (block_markers(bs) + unflagged(st)).push(um));
            vstd::seq_lib::to_multiset_build(block_markers(bs) + unflagged(st), um);
        }
    }
}

/// Pairing puts every marker in exactly one block: the markers of all
/// blocks, taken unflagged, are the given markers, unflagged, counted with
/// multiplicity.
pub proof fn law_pairing_covers_markers(ms: Seq<FenceMarkerV>)
    ensures
        block_markers(pair_spec(ms)).to_multiset() == unflagged(ms).to_multiset(),
{
    lemma_pair_markers(ms, ms.len() as int);
    let (st, bs) = pair_upto(ms, ms.len() as int);
    assert(ms.take(ms.len() as int) =~= ms);
    let all = bs + unclosed_blocks(st);
    lemma_block_markers_sort(all, |b: CodeBlockV| block_line(b));
    lemma_block_markers_add(bs, unclosed_blocks(st));
    lemma_unclosed_markers(st);
    vstd::seq_lib::lemma_multiset_commutative(block_markers(bs), block_markers(unclosed_blocks(st)));
    vstd::seq_lib::lemma_multiset_commutative(block_markers(bs), unflagged(st));
}

/// The markers of a text come on strictly increasing lines.
pub proof fn lemma_markers_increase(content: Seq<char>)
    requires
        lines(content).len() <= usize::MAX,
    ensures
        lines_increase(markers_spec(content)),
{
    lemma_markers_upto_lines(lines(content), lines(content).len() as int);
}

proof fn lemma_markers_upto_lines(ls: Seq<Seq<char>>, k: int)
    requires
        0 <= k <= ls.len() <= usize::MAX,
    ensures
        lines_increase(markers_upto(ls, k)),
        forall|i: int| 0 <= i < markers_upto(ls, k).len() ==> (#[trigger] markers_upto(ls, k)[i]).line_num < k,
    decreases k,
{
    if k > 0 {
        lemma_markers_upto_lines(ls, k - 1);
        let prev = markers_upto(ls, k - 1);
        let cur = markers_upto(ls, k);
        assert forall|i: int| 0 <= i < cur.len() implies (#[trigger] cur[i]).line_num < k by {
            if i < prev.len() {
                assert(cur[i] == prev[i]);
            }
        }
        assert forall|i: int, j: int| 0 <= i < j < cur.len() implies (#[trigger] cur[i]).line_num < (#[trigger] cur[j]).line_num by {
            if j < prev.len() {
                assert(cur[i] == prev[i] && cur[j] == prev[j]);
            } else {
                assert(cur[i] == prev[i]);
                assert(prev[i].line_num < k - 1);
                assert(cur.len() == prev.len() + 1);
                assert(cur[j].line_num == k - 1);
            }
        }
    }
}

/// The views of blocks.
pub open spec fn blocks_view(v: Seq<CodeBlock>) -> Seq<CodeBlockV> {
    v.map_values(|b: CodeBlock| b@)
}

fn flag(m: FenceMarker, opening: bool) -> (r: FenceMarker)
    ensures
        r@ == flagged(m@, opening),
{
    let mut m = m;
    m.is_opening = opening;
    m
}

/// The pairing that repair uses, computed.
fn scan_core(markers: &Vec<FenceMarker>) -> (r: (Vec<FenceMarker>, Vec<CodeBlock>, Vec<usize>))
    ensures
        ({
            let (st, bs, _last, drops) = scan_upto(markers_view(markers@), markers@.len() as int);
            &&& markers_view(r.0@) == st
            &&& blocks_view(r.1@) == bs
            &&& r.2@ == drops
        }),
{
    let ghost ms = markers_view(markers@);
    let mut blocks: Vec<CodeBlock> = Vec::new();
    let mut stack: Vec<FenceMarker> = Vec::new();
    let mut drops: Vec<usize> = Vec::new();
    let mut last: Option<(usize, FenceType)> = None;
    let mut i: usize = 0;
    while i < markers.len()
        invariant
            i <= markers@.len(),
            ms == markers_view(markers@),
            scan_upto(ms, i as int) == (markers_view(stack@), blocks_view(blocks@), last, drops@),
        decreases markers@.len() - i,
    {
        let marker = markers[i].copy();
        proof {
            assert(ms[i as int] == marker@);
        }
        let ghost st0 = markers_view(stack@);
        let ghost bs0 = blocks_view(blocks@);
        let mut close = false;
        if stack.len() > 0 {
            let top = &stack[stack.len() - 1];
            proof {
                assert(st0.last() == top@);
            }
            if marker.fence_type == top.fence_type && marker.length >= top.length {
                close = true;
            }
        }
        let mut closed_later = false;
        if i + 1 < markers.len() {
            let n = &markers[i + 1];
            proof {
                assert(ms[i + 1] == n@);
            }
            closed_later = n.language.is_none() && n.fence_type == marker.fence_type && n.length >= marker.length
                && n.line_num > marker.line_num && n.line_num - marker.line_num > 1;
        }
        let dup = !closed_later && stack.len() == 0 && marker.language.is_none() && match last {
            Some((l, t)) => t == marker.fence_type && marker.line_num > 0 && marker.line_num - 1 == l,
            None => false,
        };
        if close {
            let line = marker.line_num;
            let t = marker.fence_type;
            let top = stack.pop().unwrap();
            let opening = flag(top, true);
            let closing = flag(marker, false);
            blocks.push(CodeBlock { opening, closing: Some(closing) });
            last = Some((line, t));
            proof {
                assert(markers_view(stack@) =~= st0.drop_last());
                assert(blocks_view(blocks@) =~= bs0.push(blocks@[blocks@.len() - 1]@));
            }
        } else if dup {
            drops.push(marker.line_num);
            last = Some((marker.line_num, marker.fence_type));
        } else {
            stack.push(flag(marker, true));
            last = None;
            proof {
                assert(markers_view(stack@) =~= st0.push(stack@[stack@.len() - 1]@));
            }
        }
        i += 1;
    }
    (stack, blocks, drops)
}

/// The pairing of all markers, computed: the fences left open and the
/// closed blocks.
fn pair_core(markers: &Vec<FenceMarker>) -> (r: (Vec<FenceMarker>, Vec<CodeBlock>))
    ensures
        ({
            let (st, bs) = pair_upto(markers_view(markers@), markers@.len() as int);
            &&& markers_view(r.0@) == st
            &&& blocks_view(r.1@) == bs
        }),
{
    let ghost ms = markers_view(markers@);
    let mut blocks: Vec<CodeBlock> = Vec::new();
    let mut stack: Vec<FenceMarker> = Vec::new();
    let mut i: usize = 0;
    while i < markers.len()
        invariant
            i <= markers@.len(),
            ms == markers_view(markers@),
            pair_upto(ms, i as int) == (markers_view(stack@), blocks_view(blocks@)),
        decreases markers@.len() - i,
    {
        let marker = markers[i].copy();
        proof {
            assert(ms[i as int] == marker@);
        }
        let ghost st0 = markers_view(stack@);
        let ghost bs0 = blocks_view(blocks@);
        let mut close = false;
        if stack.len() > 0 {
            let top = &stack[stack.len() - 1];
            proof {
                assert(st0.last() == top@);
            }
            if marker.fence_type == top.fence_type && marker.length >= top.length {
                close = true;
            }
        }
        if close {
            let top = stack.pop().unwrap();
            let opening = flag(top, true);
            let closing = flag(marker, false);
            blocks.push(CodeBlock { opening, closing: Some(closing) });
            proof {
                assert(markers_view(stack@) =~= st0.drop_last());
                assert(blocks_view(blocks@) =~= bs0.push(blocks@[blocks@.len() - 1]@));
            }
        } else {
            stack.push(flag(marker, true));
            proof {
                assert(markers_view(stack@) =~= st0.push(stack@[stack@.len() - 1]@));
            }
        }
        i += 1;
    }
    (stack, blocks)
}

/// The closed blocks followed by the fences left open, sorted by opening
/// line.
fn finish_blocks(stack: Vec<FenceMarker>, blocks: Vec<CodeBlock>) -> (r: Vec<CodeBlock>)
    ensures
        blocks_view(r@) == sort_by(
            blocks_view(blocks@) + unclosed_blocks(markers_view(stack@)),
            |b: CodeBlockV| block_line(b),
        ),
{
    let mut stack = stack;
    let mut blocks = blocks;
    let ghost st_all = markers_view(stack@);
    let ghost bs_all = blocks_view(blocks@);
    while stack.len() > 0
        invariant
            blocks_view(blocks@) + unclosed_blocks(markers_view(stack@)) == bs_all + unclosed_blocks(st_all),
        decreases stack@.len(),
    {
        let ghost st0 = markers_view(stack@);
        let ghost bs0 = blocks_view(blocks@);
        let opening = stack.pop().unwrap();
        blocks.push(CodeBlock { opening, closing: None });
        proof {
            assert(markers_view(stack@) =~= st0.drop_last());
            assert(blocks_view(blocks@) =~= bs0.push(blocks@[blocks@.len() - 1]@));
            assert(unclosed_blocks(st0) == seq![blocks@[blocks@.len() - 1]@] + unclosed_blocks(markers_view(stack@)));
            assert(blocks_view(blocks@) + unclosed_blocks(markers_view(stack@)) =~= bs0 + unclosed_blocks(st0));
        }
    }
    proof {
        assert(blocks_view(blocks@) =~= bs_all + unclosed_blocks(st_all));
    }
    sort_blocks(blocks)
}

/// Pair fence markers into code blocks.
///
/// Uses a stack: a marker closes the fence on top of the stack when it has
/// the same type and at least as many characters (so a longer fence can
/// nest a shorter one); any other marker opens a fence. Fences left open
/// become unclosed blocks. Blocks are sorted by opening line.
pub fn pair_fences(markers: Vec<FenceMarker>) -> (blocks: Vec<CodeBlock>)
    ensures
        blocks_view(blocks@) == pair_spec(markers_view(markers@)),
{
    let (stack, blocks) = pair_core(&markers);
    finish_blocks(stack, blocks)
}

/// The lines of stray closing fences: a fence without a language, with no
/// fence open, of the same type and on the line right after a closing
/// fence or after another stray one, that the next fence does not close
/// over at least one line of content.
pub fn duplicate_closing_fences(markers: &Vec<FenceMarker>) -> (r: Vec<usize>)
    ensures
        r@ == duplicate_lines(markers_view(markers@)),
{
    let (_stack, _blocks, drops) = scan_core(markers);
    drops
}

/// Stable sort of blocks by opening line.
fn sort_blocks(src: Vec<CodeBlock>) -> (r: Vec<CodeBlock>)
    ensures
        blocks_view(r@) == sort_by(blocks_view(src@), |b: CodeBlockV| block_line(b)),
{
    let ghost sv = blocks_view(src@);
    let ghost key = |b: CodeBlockV| block_line(b);
    let mut sorted: Vec<CodeBlock> = Vec::new();
    let mut i: usize = 0;
    while i < src.len()
        invariant
            i <= src@.len(),
            sv == blocks_view(src@),
            key == (|b: CodeBlockV| block_line(b)),
            blocks_view(sorted@) == sort_by(sv.take(i as int), key),
        decreases src@.len() - i,
    {
        let a = src[i].copy();
        let ghost sb = blocks_view(sorted@);
        let mut j: usize = sorted.len();
        while j > 0 && a.opening.line_num < sorted[j - 1].opening.line_num
            invariant
                j <= sorted@.len(),
                sb == blocks_view(sorted@),
                key == (|b: CodeBlockV| block_line(b)),
                forall|q: int| j <= q < sb.len() ==> key(a@) < key(#[trigger] sb[q]),
            decreases j,
        {
            proof { assert(sb[j - 1] == sorted@[j - 1]@); }
            j -= 1;
        }
        proof {
            if j > 0 {
                assert(sb[j - 1] == sorted@[j - 1]@);
            }
            lemma_ins_pos_unique(sb, a@, key, j as int);
            assert(sv.take(i + 1).drop_last() =~= sv.take(i as int));
            assert(sv.take(i + 1).last() == a@);
        }
        sorted.insert(j, a);
        proof {
            assert(blocks_view(sorted@) =~= sb.insert(j as int, blocks_view(sorted@)[j as int]));
        }
        i += 1;
    }
    proof {
        assert(sv.take(i as int) =~= sv);
    }
    sorted
}

// ---------------------------------------------------------------------------
// Validation
// ---------------------------------------------------------------------------

/// The issue of a block, if any: no closing fence; a closing fence of the
/// other type; or one of another length.
pub open spec fn issue_of(b: CodeBlockV) -> Option<FenceIssueV> {
    match b.closing {
        Some(c) => if c.fence_type != b.opening.fence_type {
            Some(FenceIssueV::TypeMismatch { opening: b.opening, closing: c })
        } else if c.length != b.opening.length {
            Some(FenceIssueV::LengthMismatch { opening: b.opening, closing: c })
        } else {
            None
        },
        None => Some(FenceIssueV::Unclosed { opening: b.opening }),
    }
}

/// The issues of the first `k` blocks, in order.
pub open spec fn issues_upto(bs: Seq<CodeBlockV>, k: int) -> Seq<FenceIssueV>
    decreases k,
{
    if k <= 0 {
        Seq::empty()
    } else {
        let prev = issues_upto(bs, k - 1);
        match issue_of(bs[k - 1]) {
            Some(i) => prev.push(i),
            None => prev,
        }
    }
}

/// The issues of a list of blocks.
pub open spec fn validate_spec(bs: Seq<CodeBlockV>) -> Seq<FenceIssueV> {
    issues_upto(bs, bs.len() as int)
}

proof fn lemma_issues_upto(bs: Seq<CodeBlockV>, k: int)
    requires
        0 <= k <= bs.len(),
    ensures
        issues_upto(bs, k) == bs.take(k).filter_map(|b: CodeBlockV| issue_of(b)),
    decreases k,
{
    if k > 0 {
        lemma_issues_upto(bs, k - 1);
        assert(bs.take(k).drop_last() =~= bs.take(k - 1));
        assert(bs.take(k).last() == bs[k - 1]);
        let rest = bs.take(k - 1).filter_map(|b: CodeBlockV| issue_of(b));
        match issue_of(bs[k - 1]) {
            Some(i) => assert(rest.push(i) =~= rest + seq![i]),
            None => {},
        }
    }
}

/// Validation gives one issue per block that needs one, in block order: a
/// block without a closing fence is unclosed, one closed by the other type
/// is a type mismatch, one closed by the same type at another length is a
/// length mismatch, and a block closed by the same type and length gives
/// none.
pub proof fn law_one_issue_per_faulty_block(bs: Seq<CodeBlockV>)
    ensures
        validate_spec(bs) == bs.filter_map(|b: CodeBlockV| issue_of(b)),
        forall|b: CodeBlockV| #[trigger] issue_of(b) is None <==> (b.closing matches Some(c) && c.fence_type
            == b.opening.fence_type && c.length == b.opening.length),
{
    lemma_issues_upto(bs, bs.len() as int);
    assert(bs.take(bs.len() as int) =~= bs);
}

/// The views of issues.
pub open spec fn issues_view(v: Seq<FenceIssue>) -> Seq<FenceIssueV> {
    v.map_values(|i: FenceIssue| i@)
}

/// Validate fence blocks and return list of issues.
pub fn validate_fences(blocks: &[CodeBlock]) -> (issues: Vec<FenceIssue>)
    ensures
        issues_view(issues@) == validate_spec(blocks@.map_values(|b: CodeBlock| b@)),
{
    let ghost bv = blocks@.map_values(|b: CodeBlock| b@);
    let mut issues: Vec<FenceIssue> = Vec::new();
    let mut i: usize = 0;
    while i < blocks.len()
        invariant
            i <= blocks@.len(),
            bv == blocks@.map_values(|b: CodeBlock| b@),
            issues_view(issues@) == issues_upto(bv, i as int),
        decreases blocks@.len() - i,
    {
        let block = &blocks[i];
        proof {
            assert(bv[i as int] == block@);
        }
        let ghost before = issues_view(issues@);
        match &block.closing {
            Some(closing) => {
                if closing.fence_type != block.opening.fence_type {
                    issues.push(FenceIssue::TypeMismatch { opening: block.opening.copy(), closing: closing.copy() });
                    proof { assert(issues_view(issues@) =~= before.push(issues@[issues@.len() - 1]@)); }
                } else if closing.length != block.opening.length {
                    issues.push(FenceIssue::LengthMismatch { opening: block.opening.copy(), closing: closing.copy() });
                    proof { assert(issues_view(issues@) =~= before.push(issues@[issues@.len() - 1]@)); }
                }
            },
            None => {
                issues.push(FenceIssue::Unclosed { opening: block.opening.copy() });
                proof { assert(issues_view(issues@) =~= before.push(issues@[issues@.len() - 1]@)); }
            },
        }
        i += 1;
    }
    issues
}

// ---------------------------------------------------------------------------
// Repair
// ---------------------------------------------------------------------------

/// The opening fence of an issue.
pub open spec fn issue_opening(i: FenceIssueV) -> FenceMarkerV {
    match i {
        FenceIssueV::Unclosed { opening } => opening,
        FenceIssueV::LengthMismatch { opening, .. } => opening,
        FenceIssueV::TypeMismatch { opening, .. } => opening,
    }
}

/// The line of an issue's opening fence.
pub open spec fn issue_line(i: FenceIssueV) -> int {
    issue_opening(i).line_num as int
}

/// The decimal digit of `d < 10`.
pub open spec fn digit_char(d: nat) -> char {
    if d == 0 { '0' } else if d == 1 { '1' } else if d == 2 { '2' } else if d == 3 { '3' } else if d == 4 {
        '4'
    } else if d == 5 { '5' } else if d == 6 { '6' } else if d == 7 { '7' } else if d == 8 { '8' } else {
        '9'
    }
}

/// The decimal representation of `n`.
pub open spec fn decimal(n: nat) -> Seq<char>
    decreases n,
{
    if n < 10 {
        seq![digit_char(n)]
    } else {
        decimal(n / 10).push(digit_char(n % 10))
    }
}

/// `n` spaces.
pub open spec fn spaces(n: int) -> Seq<char> {
    Seq::new(n as nat, |i: int| ' ')
}

/// Bytes of whitespace that trimming drops from the line.
pub open spec fn indent_bytes(line: Seq<char>) -> int {
    byte_len(line) - byte_len(trim(line))
}

/// The lines after repairing one issue: an unclosed fence gets a closing
/// line of its fence character repeated to its length; a length
/// mismatch rewrites both fences to the longer length, keeping their
/// indentation (as spaces, one per byte trimmed) and the opening's language;
/// a type mismatch is left alone.
pub open spec fn apply_issue(ls: Seq<Seq<char>>, issue: FenceIssueV) -> Seq<Seq<char>> {
    match issue {
        FenceIssueV::Unclosed { opening } => ls.push(Seq::new(opening.length as nat, |i: int| fence_char(opening.fence_type))),
        FenceIssueV::LengthMismatch { opening, closing } => {
            let len = if opening.length >= closing.length { opening.length } else { closing.length };
            let fence = Seq::new(len as nat, |i: int| fence_char(opening.fence_type));
            let lang = match opening.language {
                Some(l) => l,
                None => Seq::empty(),
            };
            let ls1 = if opening.line_num < ls.len() {
                ls.update(opening.line_num as int, spaces(indent_bytes(ls[opening.line_num as int])) + fence + lang)
            } else {
                ls
            };
            if closing.line_num < ls1.len() {
                ls1.update(closing.line_num as int, spaces(indent_bytes(ls1[closing.line_num as int])) + fence)
            } else {
                ls1
            }
        },
        FenceIssueV::TypeMismatch { .. } => ls,
    }
}

/// The lines after repairing the first `k` issues of the list.
pub open spec fn apply_issues(ls: Seq<Seq<char>>, issues: Seq<FenceIssueV>, k: int) -> Seq<Seq<char>>
    decreases k,
{
    if k <= 0 {
        ls
    } else {
        apply_issue(apply_issues(ls, issues, k - 1), issues[k - 1])
    }
}

/// The first `k` lines without those whose numbers are dropped.
pub open spec fn kept_lines(ls: Seq<Seq<char>>, drops: Seq<usize>, k: int) -> Seq<Seq<char>>
    decreases k,
{
    if k <= 0 {
        Seq::empty()
    } else {
        kept_lines(ls, drops, k - 1) + if drops.contains((k - 1) as usize) {
            Seq::<Seq<char>>::empty()
        } else {
            seq![ls[k - 1]]
        }
    }
}

/// The repaired text: issues taken from the last opening line to the first
/// (ties in reverse order), applied to the lines; then the dropped lines
/// are removed and the rest joined by `\n`.
pub open spec fn repair_spec(content: Seq<char>, issues: Seq<FenceIssueV>, drops: Seq<usize>) -> Seq<char> {
    let order = sort_by(issues, |i: FenceIssueV| issue_line(i)).reverse();
    let ls = apply_issues(lines(content), order, order.len() as int);
    join_lines(kept_lines(ls, drops, ls.len() as int))
}

/// The text `normalize_fences` produces: unchanged without markers, or
/// when the repair pairing finds no issue and no stray closing fence;
/// otherwise repaired.
pub open spec fn normalize_fences_spec(content: Seq<char>) -> Seq<char> {
    let ms = markers_spec(content);
    if ms.len() == 0 {
        content
    } else {
        let issues = validate_spec(repair_pairs_spec(ms));
        let drops = duplicate_lines(ms);
        if issues.len() == 0 && drops.len() == 0 {
            content
        } else {
            repair_spec(content, issues, drops)
        }
    }
}

proof fn lemma_scan_without_strays(ms: Seq<FenceMarkerV>, k: int)
    requires
        0 <= k <= ms.len(),
    ensures
        ({
            let (st, bs, _last, drops) = scan_upto(ms, k);
            drops.len() == 0 ==> (st, bs) == pair_upto(ms, k)
        }),
        scan_upto(ms, k).3.len() <= scan_upto(ms, ms.len() as int).3.len(),
{
    if k > 0 {
        lemma_scan_without_strays_prefix(ms, k);
    }
    lemma_drops_grow(ms, k);
}

proof fn lemma_scan_without_strays_prefix(ms: Seq<FenceMarkerV>, k: int)
    requires
        0 < k <= ms.len(),
    ensures
        ({
            let (st, bs, _last, drops) = scan_upto(ms, k);
            drops.len() == 0 ==> (st, bs) == pair_upto(ms, k)
        }),
    decreases k,
{
    if k > 1 {
        lemma_scan_without_strays_prefix(ms, k - 1);
    }
    lemma_drops_step(ms, k);
    let (st, bs, last, drops) = scan_upto(ms, k - 1);
    let (pst, pbs) = pair_upto(ms, k - 1);
    let (st2, bs2, last2, drops2) = scan_upto(ms, k);
    let (pst2, pbs2) = pair_upto(ms, k);
    if drops2.len() == 0 {
        assert(drops.len() == 0);
        if k == 1 {
            assert(st == pst && bs == pbs);
        }
        assert(st == pst && bs == pbs);
        let m = ms[k - 1];
        if st.len() > 0 && closes(st.last(), m) {
            assert(st2 == pst2 && bs2 == pbs2);
        } else if duplicate_closer(st, last, m, next_marker(ms, k)) {
            assert(drops2.len() == drops.len() + 1);
        } else {
            assert(st2 == pst2 && bs2 == pbs2);
        }
    }
}

proof fn lemma_drops_step(ms: Seq<FenceMarkerV>, k: int)
    requires
        0 < k <= ms.len(),
    ensures
        scan_upto(ms, k - 1).3.len() <= scan_upto(ms, k).3.len(),
{
}

proof fn lemma_drops_grow(ms: Seq<FenceMarkerV>, k: int)
    requires
        0 <= k <= ms.len(),
    ensures
        scan_upto(ms, k).3.len() <= scan_upto(ms, ms.len() as int).3.len(),
    decreases ms.len() - k,
{
    if k < ms.len() {
        lemma_drops_step(ms, k + 1);
        lemma_drops_grow(ms, k + 1);
    }
}

/// Without stray closing fences, repair pairs the fences exactly as
/// [`pair_fences`] does.
pub proof fn law_repair_pairing_without_strays(ms: Seq<FenceMarkerV>)
    requires
        duplicate_lines(ms).len() == 0,
    ensures
        repair_pairs_spec(ms) == pair_spec(ms),
{
    lemma_scan_without_strays(ms, ms.len() as int);
}

/// Text whose fences all pair without an issue, and with no stray closing
/// fence, comes back from `normalize_fences` unchanged.
pub proof fn law_correct_fences_unchanged(content: Seq<char>)
    requires
        validate_spec(pair_spec(markers_spec(content))).len() == 0,
        duplicate_lines(markers_spec(content)).len() == 0,
    ensures
        normalize_fences_spec(content) == content,
{
    law_repair_pairing_without_strays(markers_spec(content));
}

fn digit_exec(d: usize) -> (c: char)
    requires
        d < 10,
    ensures
        c == digit_char(d as nat),
{
    if d == 0 { '0' } else if d == 1 { '1' } else if d == 2 { '2' } else if d == 3 { '3' } else if d == 4 {
        '4'
    } else if d == 5 { '5' } else if d == 6 { '6' } else if d == 7 { '7' } else if d == 8 { '8' } else {
        '9'
    }
}

pub(crate) fn decimal_exec(n: usize) -> (v: Vec<char>)
    ensures
        v@ == decimal(n as nat),
    decreases n,
{
    if n < 10 {
        vec![digit_exec(n)]
    } else {
        let mut v = decimal_exec(n / 10);
        v.push(digit_exec(n % 10));
        v
    }
}

fn repeat_char(ch: char, n: usize) -> (v: Vec<char>)
    ensures
        v@ == Seq::new(n as nat, |i: int| ch),
{
    let mut v: Vec<char> = Vec::new();
    let mut i: usize = 0;
    while i < n
        invariant
            i <= n,
            v@ == Seq::new(i as nat, |k: int| ch),
        decreases n - i,
    {
        v.push(ch);
        i += 1;
        proof { assert(v@ =~= Seq::new(i as nat, |k: int| ch)); }
    }
    v
}

fn fence_char_exec(t: FenceType) -> (c: char)
    ensures
        c == fence_char(t),
{
    match t {
        FenceType::Backtick => '`',
        FenceType::Tilde => '~',
    }
}

/// Bytes of a text in UTF-8, computed without a bound on the text.
pub fn byte_len_wide(v: &Vec<char>) -> (n: u128)
    ensures
        n == byte_len(v@),
{
    let mut n: u128 = 0;
    let mut i: usize = 0;
    while i < v.len()
        invariant
            i <= v@.len(),
            n == byte_len(v@.take(i as int)),
            n <= 4 * i,
        decreases v@.len() - i,
    {
        proof {
            assert(v@.take(i + 1).drop_last() =~= v@.take(i as int));
        }
        n = n + crate::text::char_width(v[i]) as u128;
        i += 1;
    }
    proof {
        assert(v@.take(i as int) =~= v@);
    }
    n
}

/// Bytes of whitespace that trimming drops, computed.
fn indent_exec(line: &Vec<char>) -> (n: u128)
    ensures
        n == indent_bytes(line@),
{
    let t = trim_vec(line);
    let a = byte_len_wide(line);
    let b = byte_len_wide(&t);
    proof {
        lemma_trim_bytes(line@);
    }
    a - b
}

/// `n` spaces, computed.
fn spaces_exec(n: u128) -> (v: Vec<char>)
    ensures
        v@ == spaces(n as int),
{
    let mut v: Vec<char> = Vec::new();
    let mut i: u128 = 0;
    while i < n
        invariant
            i <= n,
            v@ == spaces(i as int),
        decreases n - i,
    {
        v.push(' ');
        i += 1;
        proof { assert(v@ =~= spaces(i as int)); }
    }
    v
}

proof fn lemma_byte_len_add(a: Seq<char>, b: Seq<char>)
    ensures
        byte_len(a + b) == byte_len(a) + byte_len(b),
    decreases b.len(),
{
    if b.len() > 0 {
        lemma_byte_len_add(a, b.drop_last());
        assert((a + b).drop_last() =~= a + b.drop_last());
    } else {
        assert(a + b =~= a);
    }
}

#[verifier::spinoff_prover]
proof fn lemma_trim_bytes(s: Seq<char>)
    ensures
        byte_len(trim(s)) <= byte_len(s),
{
    lemma_lead_ws_bound(s);
    let t = trim_start(s);
    lemma_trail_ws_bound(t);
    let l = crate::text::lead_ws(s) as int;
    let r = crate::text::trail_ws(t) as int;
    assert(t =~= s.skip(l));
    assert(s =~= s.take(l) + (t.take(t.len() - r) + t.skip(t.len() - r)));
    lemma_byte_len_add(s.take(l), t.take(t.len() - r) + t.skip(t.len() - r));
    lemma_byte_len_add(t.take(t.len() - r), t.skip(t.len() - r));
}

/// The lines of a text, with every line short enough to measure in bytes.
fn lines_of(content: &str) -> (ls: Vec<Vec<char>>)
    ensures
        ls@.map_values(|l: Vec<char>| l@) == lines(content@),
{
    let ls = split_lines(&chars_of(content));
    proof {
        assert(ls@.map_values(|l: Vec<char>| l@) =~= lines(content@));
    }
    ls
}

/// Stable sort of issues by opening line.
fn sort_issues(src: &[FenceIssue]) -> (r: Vec<FenceIssue>)
    ensures
        issues_view(r@) == sort_by(issues_view(src@), |i: FenceIssueV| issue_line(i)),
{
    let ghost sv = issues_view(src@);
    let ghost key = |i: FenceIssueV| issue_line(i);
    let mut sorted: Vec<FenceIssue> = Vec::new();
    let mut i: usize = 0;
    while i < src.len()
        invariant
            i <= src@.len(),
            sv == issues_view(src@),
            key == (|i: FenceIssueV| issue_line(i)),
            issues_view(sorted@) == sort_by(sv.take(i as int), key),
        decreases src@.len() - i,
    {
        let a = src[i].copy();
        let a_line = issue_line_exec(&a);
        let ghost sb = issues_view(sorted@);
        let mut j: usize = sorted.len();
        while j > 0 && a_line < issue_line_exec(&sorted[j - 1])
            invariant
                j <= sorted@.len(),
                sb == issues_view(sorted@),
                a_line == issue_line(a@),
                key == (|i: FenceIssueV| issue_line(i)),
                forall|q: int| j <= q < sb.len() ==> key(a@) < key(#[trigger] sb[q]),
            decreases j,
        {
            proof { assert(sb[j - 1] == sorted@[j - 1]@); }
            j -= 1;
        }
        proof {
            if j > 0 {
                assert(sb[j - 1] == sorted@[j - 1]@);
            }
            lemma_ins_pos_unique(sb, a@, key, j as int);
            assert(sv.take(i + 1).drop_last() =~= sv.take(i as int));
            assert(sv.take(i + 1).last() == a@);
        }
        sorted.insert(j, a);
        proof {
            assert(issues_view(sorted@) =~= sb.insert(j as int, issues_view(sorted@)[j as int]));
        }
        i += 1;
    }
    proof {
        assert(sv.take(i as int) =~= sv);
    }
    sorted
}

fn issue_line_exec(i: &FenceIssue) -> (n: usize)
    ensures
        n == issue_line(i@),
{
    match i {
        FenceIssue::Unclosed { opening } => opening.line_num,
        FenceIssue::LengthMismatch { opening, .. } => opening.line_num,
        FenceIssue::TypeMismatch { opening, .. } => opening.line_num,
    }
}

/// Repair fence issues in content.
fn repair_fences(content: &str, issues: &[FenceIssue], drops: &Vec<usize>) -> (r: String)
    ensures
        r@ == repair_spec(content@, issues_view(issues@), drops@),
{
    let mut result_lines = lines_of(content);
    let sorted = sort_issues(issues);
    let ghost order = sort_by(issues_view(issues@), |i: FenceIssueV| issue_line(i)).reverse();
    let n = sorted.len();
    let mut k: usize = 0;
    while k < n
        invariant
            k <= n == sorted@.len(),
            order == issues_view(sorted@).reverse(),
            result_lines@.map_values(|l: Vec<char>| l@) == apply_issues(lines(content@), order, k as int),
        decreases n - k,
    {
        let issue = &sorted[n - 1 - k];
        let ghost lv = result_lines@.map_values(|l: Vec<char>| l@);
        proof {
            assert(order[k as int] == issue@);
        }
        match issue {
            FenceIssue::Unclosed { opening } => {
                let line = repeat_char(fence_char_exec(opening.fence_type), opening.length);
                result_lines.push(line);
                proof {
                    assert(result_lines@.map_values(|l: Vec<char>| l@) =~= lv.push(result_lines@[result_lines@.len() - 1]@));
                }
            },
            FenceIssue::LengthMismatch { opening, closing } => {
                let length = if opening.length >= closing.length { opening.length } else { closing.length };
                let fc = fence_char_exec(opening.fence_type);
                let fence = repeat_char(fc, length);
                let ghost lang = match opening@.language {
                    Some(l) => l,
                    None => Seq::<char>::empty(),
                };
                if opening.line_num < result_lines.len() {
                    let indent = indent_exec(&result_lines[opening.line_num]);
                    proof {
                        assert(lv[opening.line_num as int] == result_lines@[opening.line_num as int]@);
                    }
                    let mut nl = spaces_exec(indent);
                    append_chars(&mut nl, &fence);
                    match &opening.language {
                        Some(l) => {
                            let lc = chars_of(l.as_str());
                            append_chars(&mut nl, &lc);
                        },
                        None => {
                            proof { assert(nl@ + lang =~= nl@); }
                        },
                    }
                    result_lines.set(opening.line_num, nl);
                }
                let ghost lv1 = result_lines@.map_values(|l: Vec<char>| l@);
                proof {
                    let ls1 = if opening@.line_num < lv.len() {
                        lv.update(opening@.line_num as int, spaces(indent_bytes(lv[opening@.line_num as int])) + Seq::new(length as nat, |i: int| fence_char(opening@.fence_type)) + lang)
                    } else {
                        lv
                    };
                    assert(lv1 =~= ls1);
                }
                if closing.line_num < result_lines.len() {
                    let indent = indent_exec(&result_lines[closing.line_num]);
                    proof {
                        assert(lv1[closing.line_num as int] == result_lines@[closing.line_num as int]@);
                    }
                    let mut nl = spaces_exec(indent);
                    append_chars(&mut nl, &fence);
                    result_lines.set(closing.line_num, nl);
                }
                proof {
                    assert(result_lines@.map_values(|l: Vec<char>| l@) =~= apply_issue(lv, issue@));
                }
            },
            FenceIssue::TypeMismatch { .. } => {},
        }
        k += 1;
    }
    let kept = keep_lines(&result_lines, drops);
    let joined = join_lines_vec(&kept);
    string_of(&joined)
}

/// Lines whose numbers are not dropped.
fn keep_lines(ls: &Vec<Vec<char>>, drops: &Vec<usize>) -> (r: Vec<Vec<char>>)
    ensures
        r@.map_values(|l: Vec<char>| l@) == kept_lines(ls@.map_values(|l: Vec<char>| l@), drops@, ls@.len() as int),
{
    let ghost lv = ls@.map_values(|l: Vec<char>| l@);
    let mut r: Vec<Vec<char>> = Vec::new();
    let mut i: usize = 0;
    while i < ls.len()
        invariant
            i <= ls@.len(),
            lv == ls@.map_values(|l: Vec<char>| l@),
            r@.map_values(|l: Vec<char>| l@) == kept_lines(lv, drops@, i as int),
        decreases ls@.len() - i,
    {
        let mut dropped = false;
        let mut j: usize = 0;
        while j < drops.len()
            invariant
                j <= drops@.len(),
                dropped == exists|q: int| 0 <= q < j && drops@[q] == i,
            decreases drops@.len() - j,
        {
            if drops[j] == i {
                dropped = true;
            }
            j += 1;
        }
        let ghost before = r@.map_values(|l: Vec<char>| l@);
        if !dropped {
            r.push(copy_line(&ls[i]));
            proof {
                assert(r@.map_values(|l: Vec<char>| l@) =~= before + seq![lv[i as int]]);
            }
        } else {
            proof {
                assert(drops@.contains(i));
                assert(before + Seq::<Seq<char>>::empty() =~= before);
            }
        }
        proof {
            if !dropped {
                assert(!drops@.contains(i)) by {
                    if drops@.contains(i) {
                        let q = choose|q: int| 0 <= q < drops@.len() && drops@[q] == i;
                    }
                }
            }
        }
        i += 1;
    }
    r
}

fn copy_line(v: &Vec<char>) -> (r: Vec<char>)
    ensures
        r@ == v@,
{
    slice_vec(v, 0, v.len())
}

/// Normalize fences in content, repairing common issues.
///
/// Detects all fence markers, pairs them into blocks with stray closing
/// fences set aside (see [`duplicate_closing_fences`]) and validates each
/// block; content without markers, issues or stray closing fences comes
/// back unchanged, otherwise the issues are repaired and the stray closing
/// fences removed.
pub fn normalize_fences(content: &str) -> (r: String)
    ensures
        r@ == normalize_fences_spec(content@),
{
    let markers = detect_fence_markers(content);
    if markers.len() == 0 {
        return copy_str(content);
    }
    let (stack, scanned, drops) = scan_core(&markers);
    let blocks = finish_blocks(stack, scanned);
    let issues = validate_fences(blocks.as_slice());
    proof {
        assert(blocks@.map_values(|b: CodeBlock| b@) == blocks_view(blocks@));
    }
    if issues.len() == 0 && drops.len() == 0 {
        return copy_str(content);
    }
    repair_fences(content, issues.as_slice(), &drops)
}

fn copy_str(s: &str) -> (r: String)
    ensures
        r@ == s@,
{
    string_of(&chars_of(s))
}

} // verus!
