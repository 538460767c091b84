//! Inline code detection and protection for Markdown content.
//!
//! This module detects inline code spans (backtick pairs) and provides masking/restoration
//! functionality to protect them from diagram processing.

use vstd::prelude::*;

use crate::text::{chars_of, slice_vec, string_of};

verus! {

/// Represents an inline code span within a line.
#[derive(Debug, Clone, PartialEq, Eq)]
pub struct InlineCodeSpan {
    /// Opening backtick position
    pub start_col: usize,
    /// Closing backtick position (inclusive)
    pub end_col: usize,
    /// Original content between backticks (including the backticks)
    pub content: String,
}

/// Mathematical value of an [`InlineCodeSpan`].
pub struct InlineCodeSpanV {
    pub start_col: usize,
    pub end_col: usize,
    pub content: Seq<char>,
}

impl View for InlineCodeSpan {
    type V = InlineCodeSpanV;

    open spec fn view(&self) -> InlineCodeSpanV {
        InlineCodeSpanV { start_col: self.start_col, end_col: self.end_col, content: self.content@ }
    }
}

/// The views of a list of spans.
pub open spec fn spans_view(spans: Seq<InlineCodeSpan>) -> Seq<InlineCodeSpanV> {
    spans.map_values(|s: InlineCodeSpan| s@)
}

/// A backtick at `i` that no backslash escapes.
pub open spec fn live_tick(s: Seq<char>, i: int) -> bool {
    s[i] == '`' && !(i > 0 && s[i - 1] == '\\')
}

/// The first live backtick at or after `j`.
pub open spec fn close_from(s: Seq<char>, j: int) -> Option<int>
    decreases s.len() - j,
{
    if j >= s.len() || j < 0 {
        None
    } else if live_tick(s, j) {
        Some(j)
    } else {
        close_from(s, j + 1)
    }
}

/// The span from an opening backtick at `i` to its closing one at `j`.
pub open spec fn span_of(s: Seq<char>, i: int, j: int) -> InlineCodeSpanV {
    InlineCodeSpanV { start_col: i as usize, end_col: j as usize, content: s.subrange(i, j + 1) }
}

/// The spans found scanning from position `i`: a live backtick opens a span
/// closed by the next live backtick; an opening backtick with no closing
/// one ends the scan.
pub open spec fn spans_from(s: Seq<char>, i: int) -> Seq<InlineCodeSpanV>
    decreases s.len() - i,
{
    if i >= s.len() || i < 0 {
        Seq::empty()
    } else if live_tick(s, i) {
        match close_from(s, i + 1) {
            Some(j) => if i < j < s.len() {
                seq![span_of(s, i, j)] + spans_from(s, j + 1)
            } else {
                Seq::empty()
            },
            None => Seq::empty(),
        }
    } else {
        spans_from(s, i + 1)
    }
}

proof fn lemma_close_from(s: Seq<char>, j: int)
    requires
        0 <= j,
    ensures
        match close_from(s, j) {
            Some(k) => j <= k < s.len() && live_tick(s, k) && forall|q: int| j <= q < k ==> !live_tick(s, q),
            None => forall|q: int| j <= q < s.len() ==> !live_tick(s, q),
        },
    decreases s.len() - j,
{
    if j < s.len() && !live_tick(s, j) {
        lemma_close_from(s, j + 1);
    }
}

/// Detect all inline code spans in a line.
///
/// Scans the line for backtick pairs and extracts inline code spans.
/// A backtick right after a backslash is escaped; an opening backtick with
/// no closing one is not a span, and ends the scan.
pub fn detect_inline_code_spans(line: &str) -> (spans: Vec<InlineCodeSpan>)
    ensures
        spans_view(spans@) == spans_from(line@, 0),
{
    let chars = chars_of(line);
    let ghost s = chars@;
    let mut spans: Vec<InlineCodeSpan> = Vec::new();
    let mut i: usize = 0;
    while i < chars.len()
        invariant
            i <= chars@.len(),
            s == chars@,
            s == line@,
            spans_view(spans@) + spans_from(s, i as int) == spans_from(s, 0),
        decreases chars@.len() - i,
    {
        if chars[i] == '`' {
            if i > 0 && chars[i - 1] == '\\' {
                i += 1;
                continue;
            }
            let start_col = i;
            proof {
                lemma_close_from(s, i + 1);
            }
            i += 1;
            let mut closed = false;
            while i < chars.len() && !closed
                invariant
                    start_col < i <= chars@.len(),
                    s == chars@,
                    live_tick(s, start_col as int),
                    !closed ==> close_from(s, start_col + 1) == close_from(s, i as int),
                    closed ==> close_from(s, start_col + 1) == Some((i - 1) as int),
                    spans_view(spans@) + spans_from(s, start_col as int) == spans_from(s, 0),
                decreases chars@.len() - i + (if closed { 0int } else { 1int }),
            {
                if chars[i] == '`' && !(chars[i - 1] == '\\') {
                    closed = true;
                }
                i += 1;
            }
            if closed {
                let end_col = i - 1;
                let piece = slice_vec(&chars, start_col, end_col + 1);
                let content = string_of(&piece);
                let ghost before = spans_view(spans@);
                spans.push(InlineCodeSpan { start_col, end_col, content });
                proof {
                    assert(spans_view(spans@) =~= before.push(span_of(s, start_col as int, end_col as int)));
                    assert(spans_from(s, start_col as int) == seq![span_of(s, start_col as int, end_col as int)]
                        + spans_from(s, i as int));
                    assert(spans_view(spans@) + spans_from(s, i as int) =~= before + spans_from(s, start_col as int));
                }
            } else {
                proof {
                    assert(close_from(s, i as int) is None);
                    assert(spans_from(s, start_col as int) =~= Seq::<InlineCodeSpanV>::empty());
                    assert(spans_from(s, i as int) =~= Seq::<InlineCodeSpanV>::empty());
                    assert(spans_view(spans@) + spans_from(s, i as int) =~= spans_view(spans@) + spans_from(s, start_col as int));
                }
            }
        } else {
            i += 1;
        }
    }
    proof {
        assert(spans_view(spans@) + spans_from(s, i as int) =~= spans_view(spans@));
    }
    spans
}

/// Position `k` lies within one of the spans.
pub open spec fn in_some_span(spans: Seq<InlineCodeSpanV>, k: int) -> bool {
    exists|q: int| 0 <= q < spans.len() && (#[trigger] spans[q]).start_col <= k <= spans[q].end_col
}

/// The line with every character of every span replaced by a space.
pub open spec fn masked(s: Seq<char>, spans: Seq<InlineCodeSpanV>) -> Seq<char> {
    Seq::new(s.len(), |k: int| if in_some_span(spans, k) { ' ' } else { s[k] })
}

proof fn lemma_spans_from_bounds(s: Seq<char>, i: int)
    requires
        0 <= i,
        s.len() <= usize::MAX,
    ensures
        forall|q: int| 0 <= q < spans_from(s, i).len() ==> {
            let sp = #[trigger] spans_from(s, i)[q];
            &&& i <= sp.start_col < sp.end_col < s.len()
            &&& sp.content == s.subrange(sp.start_col as int, sp.end_col + 1)
        },
        forall|q1: int, q2: int| 0 <= q1 < q2 < spans_from(s, i).len() ==> (#[trigger] spans_from(s, i)[q1]).end_col
            < (#[trigger] spans_from(s, i)[q2]).start_col,
    decreases s.len() - i,
{
    if i < s.len() {
        if live_tick(s, i) {
            lemma_close_from(s, i + 1);
            match close_from(s, i + 1) {
                Some(j) => {
                    lemma_spans_from_bounds(s, j + 1);
                    let rest = spans_from(s, j + 1);
                    let all = spans_from(s, i);
                    assert(all == seq![span_of(s, i, j)] + rest);
                    assert forall|q: int| 0 <= q < all.len() implies {
                        let sp = #[trigger] all[q];
                        &&& i <= sp.start_col < sp.end_col < s.len()
                        &&& sp.content == s.subrange(sp.start_col as int, sp.end_col + 1)
                    } by {
                        if q > 0 {
                            assert(all[q] == rest[q - 1]);
                        }
                    }
                    assert forall|q1: int, q2: int| 0 <= q1 < q2 < all.len() implies (#[trigger] all[q1]).end_col
                        < (#[trigger] all[q2]).start_col by {
                        assert(all[q2] == rest[q2 - 1]);
                        if q1 > 0 {
                            assert(all[q1] == rest[q1 - 1]);
                        }
                    }
                },
                None => {
                    assert(spans_from(s, i).len() == 0);
                },
            }
        } else {
            lemma_spans_from_bounds(s, i + 1);
            assert(spans_from(s, i) == spans_from(s, i + 1));
        }
    } else {
        assert(spans_from(s, i).len() == 0);
    }
}

/// Mask inline code by replacing characters with spaces.
///
/// Returns the masked line and the spans that were masked. Spaces are used
/// to preserve column positions for grid-based processing.
pub fn mask_inline_code(line: &str) -> (r: (String, Vec<InlineCodeSpan>))
    ensures
        spans_view(r.1@) == spans_from(line@, 0),
        r.0@ == masked(line@, spans_from(line@, 0)),
        restore_upto(r.0@, spans_view(r.1@), r.1@.len() as int) == line@,
{
    let spans = detect_inline_code_spans(line);
    let mut chars = chars_of(line);
    let ghost s = chars@;
    let ghost sv = spans_view(spans@);
    let _n = chars.len();
    proof {
        lemma_spans_from_bounds(s, 0);
    }
    let mut q: usize = 0;
    while q < spans.len()
        invariant
            q <= spans@.len(),
            sv == spans_view(spans@),
            sv == spans_from(s, 0),
            chars@.len() == s.len(),
            forall|p: int| 0 <= p < sv.len() ==> (#[trigger] sv[p]).start_col < sv[p].end_col < s.len(),
            forall|k: int| 0 <= k < s.len() ==> #[trigger] chars@[k] == if in_some_span(sv.take(q as int), k) {
                ' '
            } else {
                s[k]
            },
        decreases spans@.len() - q,
    {
        let span = &spans[q];
        proof {
            assert(sv[q as int] == span@);
        }
        let ghost before = chars@;
        let mut j = span.start_col;
        while j <= span.end_col
            invariant
                span.start_col <= j <= span.end_col + 1,
                span.end_col < s.len(),
                chars@.len() == s.len(),
                forall|k: int| 0 <= k < s.len() ==> #[trigger] chars@[k] == if span.start_col <= k < j {
                    ' '
                } else {
                    before[k]
                },
            decreases span.end_col + 1 - j,
        {
            if j < chars.len() {
                chars.set(j, ' ');
            }
            j += 1;
        }
        proof {
            assert forall|k: int| 0 <= k < s.len() implies #[trigger] chars@[k] == if in_some_span(sv.take(q + 1), k) {
                ' '
            } else {
                s[k]
            } by {
                assert(sv.take(q + 1)[q as int] == sv[q as int]);
                if in_some_span(sv.take(q + 1), k) && !(span.start_col <= k <= span.end_col) {
                    let p = choose|p: int| 0 <= p < sv.take(q + 1).len() && (#[trigger] sv.take(q + 1)[p]).start_col <= k <= sv.take(q + 1)[p].end_col;
                    assert(sv.take(q as int)[p] == sv.take(q + 1)[p]);
                }
                if in_some_span(sv.take(q as int), k) {
                    let p = choose|p: int| 0 <= p < sv.take(q as int).len() && (#[trigger] sv.take(q as int)[p]).start_col <= k <= sv.take(q as int)[p].end_col;
                    assert(sv.take(q + 1)[p] == sv.take(q as int)[p]);
                }
            }
        }
        q += 1;
    }
    proof {
        assert(sv.take(q as int) =~= sv);
        assert(chars@ =~= masked(s, sv));
        law_mask_restore_roundtrip(s);
    }
    let out = string_of(&chars);
    (out, spans)
}

/// `v` with `content` written from `start`, cut at the end of `v`.
pub open spec fn write_at(v: Seq<char>, start: int, content: Seq<char>) -> Seq<char> {
    Seq::new(v.len(), |p: int| if start <= p < start + content.len() { content[p - start] } else { v[p] })
}

/// The line after writing back the first `k` spans in order.
pub open spec fn restore_upto(v: Seq<char>, spans: Seq<InlineCodeSpanV>, k: int) -> Seq<char>
    decreases k,
{
    if k <= 0 {
        v
    } else {
        let prev = restore_upto(v, spans, k - 1);
        write_at(prev, spans[k - 1].start_col as int, spans[k - 1].content)
    }
}

/// Restore masked inline code content.
///
/// Each span's content is written back from its start column, in order,
/// cut at the end of the line.
pub fn restore_inline_code(masked_line: &str, spans: &[InlineCodeSpan]) -> (r: String)
    ensures
        r@ == restore_upto(masked_line@, spans_view(spans@), spans@.len() as int),
{
    let mut restored = chars_of(masked_line);
    let ghost sv = spans_view(spans@);
    let mut q: usize = 0;
    while q < spans.len()
        invariant
            q <= spans@.len(),
            sv == spans_view(spans@),
            restored@ == restore_upto(masked_line@, sv, q as int),
        decreases spans@.len() - q,
    {
        let span = &spans[q];
        proof {
            assert(sv[q as int] == span@);
        }
        let content = chars_of(span.content.as_str());
        let ghost before = restored@;
        let mut i: usize = 0;
        while i < content.len()
            invariant
                i <= content@.len(),
                content@ == span@.content,
                restored@.len() == before.len(),
                restored@ == write_at(before, span.start_col as int, content@.take(i as int)),
            decreases content@.len() - i,
        {
            if span.start_col < restored.len() && i < restored.len() - span.start_col {
                restored.set(span.start_col + i, content[i]);
            }
            i += 1;
            proof {
                assert(restored@ =~= write_at(before, span.start_col as int, content@.take(i as int)));
            }
        }
        proof {
            assert(content@.take(i as int) =~= content@);
        }
        q += 1;
    }
    string_of(&restored)
}

/// Restoring a masked line gives back the line.
pub proof fn law_mask_restore_roundtrip(line: Seq<char>)
    requires
        line.len() <= usize::MAX,
    ensures
        restore_upto(masked(line, spans_from(line, 0)), spans_from(line, 0), spans_from(line, 0).len() as int)
            == line,
{
    let sv = spans_from(line, 0);
    let m = masked(line, sv);
    lemma_spans_from_bounds(line, 0);
    assert forall|k: int| 0 <= k <= sv.len() implies #[trigger] restore_upto(m, sv, k) == Seq::new(line.len(), |p: int|
        if in_some_span(sv.skip(k), p) { ' ' } else { line[p] }) by {
        lemma_restore_step(line, sv, k);
    }
    assert(restore_upto(m, sv, sv.len() as int) =~= line);
}

proof fn lemma_restore_step(line: Seq<char>, sv: Seq<InlineCodeSpanV>, k: int)
    requires
        sv == spans_from(line, 0),
        0 <= k <= sv.len(),
        forall|q: int| 0 <= q < sv.len() ==> {
            let sp = #[trigger] sv[q];
            &&& 0 <= sp.start_col < sp.end_col < line.len()
            &&& sp.content == line.subrange(sp.start_col as int, sp.end_col + 1)
        },
        forall|q1: int, q2: int| 0 <= q1 < q2 < sv.len() ==> (#[trigger] sv[q1]).end_col < (#[trigger] sv[q2]).start_col,
    ensures
        restore_upto(masked(line, sv), sv, k) == Seq::new(line.len(), |p: int|
            if in_some_span(sv.skip(k), p) { ' ' } else { line[p] }),
    decreases k,
{
    let m = masked(line, sv);
    if k == 0 {
        assert(sv.skip(0) =~= sv);
        assert(restore_upto(m, sv, 0) =~= Seq::new(line.len(), |p: int|
            if in_some_span(sv.skip(0), p) { ' ' } else { line[p] }));
    } else {
        lemma_restore_step(line, sv, k - 1);
        let sp = sv[k - 1];
        let lhs = restore_upto(m, sv, k);
        let rhs = Seq::new(line.len(), |p: int| if in_some_span(sv.skip(k), p) { ' ' } else { line[p] });
        assert forall|p: int| 0 <= p < line.len() implies lhs[p] == rhs[p] by {
            if sp.start_col <= p <= sp.end_col {
                assert(lhs[p] == line[p]);
                if in_some_span(sv.skip(k), p) {
                    let q = choose|q: int| 0 <= q < sv.skip(k).len() && (#[trigger] sv.skip(k)[q]).start_col <= p <= sv.skip(k)[q].end_col;
                    assert(sv.skip(k)[q] == sv[k + q]);
                }
            } else {
                if in_some_span(sv.skip(k - 1), p) {
                    let q = choose|q: int| 0 <= q < sv.skip(k - 1).len() && (#[trigger] sv.skip(k - 1)[q]).start_col <= p <= sv.skip(k - 1)[q].end_col;
                    assert(sv.skip(k - 1)[q] == sv[k - 1 + q]);
                    assert(q != 0);
                    assert(sv.skip(k)[q - 1] == sv[k - 1 + q]);
                }
                if in_some_span(sv.skip(k), p) {
                    let q = choose|q: int| 0 <= q < sv.skip(k).len() && (#[trigger] sv.skip(k)[q]).start_col <= p <= sv.skip(k)[q].end_col;
                    assert(sv.skip(k)[q] == sv[k + q]);
                    assert(sv.skip(k - 1)[q + 1] == sv[k + q]);
                }
            }
        }
        assert(lhs =~= rhs);
    }
}

} // verus!
