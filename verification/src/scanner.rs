//! Diagram block extraction from Markdown content.

use vstd::prelude::*;

pub use crate::inline_code::InlineCodeSpan;
use crate::inline_code::{InlineCodeSpanV, mask_inline_code, masked, spans_from, spans_view};
use crate::parser::{extract_normal_lines, normal_lines_spec, numbered_view};
use crate::text::{chars_of, is_blank, is_blank_vec};

verus! {

/// Represents a contiguous diagram block with its location.
#[derive(Debug, Clone, PartialEq, Eq)]
pub struct DiagramBlock {
    /// Starting line number in the original markdown
    pub start_line: usize,
    /// Lines comprising this diagram block
    pub lines: Vec<String>,
    /// Inline code spans for each line (for protecting content during processing)
    pub inline_code_spans: Vec<Vec<InlineCodeSpan>>,
}

/// Mathematical value of a [`DiagramBlock`].
pub struct DiagramBlockV {
    pub start_line: int,
    pub lines: Seq<Seq<char>>,
    pub inline_code_spans: Seq<Seq<InlineCodeSpanV>>,
}

/// The views of lines.
pub open spec fn strings_view(v: Seq<String>) -> Seq<Seq<char>> {
    v.map_values(|s: String| s@)
}

/// The views of per-line span lists.
pub open spec fn span_lists_view(v: Seq<Vec<InlineCodeSpan>>) -> Seq<Seq<InlineCodeSpanV>> {
    v.map_values(|l: Vec<InlineCodeSpan>| spans_view(l@))
}

impl View for DiagramBlock {
    type V = DiagramBlockV;

    open spec fn view(&self) -> DiagramBlockV {
        DiagramBlockV {
            start_line: self.start_line as int,
            lines: strings_view(self.lines@),
            inline_code_spans: span_lists_view(self.inline_code_spans@),
        }
    }
}

/// The blocks closed so far and the block being read, after the first `k`
/// numbered lines: a blank line closes the block being read; any other line,
/// with its inline code masked, extends it or opens a new one.
pub open spec fn blocks_upto(nl: Seq<(int, Seq<char>)>, k: int) -> (Seq<DiagramBlockV>, Option<DiagramBlockV>)
    decreases k,
{
    if k <= 0 {
        (Seq::empty(), None)
    } else {
        let (bs, cur) = blocks_upto(nl, k - 1);
        let (num, line) = nl[k - 1];
        if is_blank(line) {
            match cur {
                Some(b) => (if b.lines.len() > 0 {
                    bs.push(b)
                } else {
                    bs
                }, None),
                None => (bs, None),
            }
        } else {
            let m = masked(line, spans_from(line, 0));
            let sp = spans_from(line, 0);
            match cur {
                Some(b) => (
                    bs,
                    Some(
                        DiagramBlockV {
                            start_line: b.start_line,
                            lines: b.lines.push(m),
                            inline_code_spans: b.inline_code_spans.push(sp),
                        },
                    ),
                ),
                None => (
                    bs,
                    Some(DiagramBlockV { start_line: num, lines: seq![m], inline_code_spans: seq![sp] }),
                ),
            }
        }
    }
}

/// The diagram blocks of a Markdown text: runs of non-blank lines outside
/// code fences and ignore blocks, each line with its inline code masked.
pub open spec fn diagram_blocks_spec(text: Seq<char>) -> Seq<DiagramBlockV> {
    let nl = normal_lines_spec(text);
    let (bs, cur) = blocks_upto(nl, nl.len() as int);
    match cur {
        Some(b) => if b.lines.len() > 0 {
            bs.push(b)
        } else {
            bs
        },
        None => bs,
    }
}

/// The views of blocks.
pub open spec fn blocks_view(v: Seq<DiagramBlock>) -> Seq<DiagramBlockV> {
    v.map_values(|b: DiagramBlock| b@)
}

/// Extract diagram blocks from Markdown content.
///
/// A diagram block is a contiguous sequence of non-empty lines outside code
/// fences. Blank lines separate blocks. Inline code spans are masked to
/// protect them from diagram processing.
pub fn extract_diagram_blocks(text: &str) -> (blocks: Vec<DiagramBlock>)
    ensures
        blocks_view(blocks@) == diagram_blocks_spec(text@),
{
    let normal_lines = extract_normal_lines(text);
    let ghost nl = normal_lines_spec(text@);
    let mut blocks: Vec<DiagramBlock> = Vec::new();
    let mut has_current = false;
    let mut start: usize = 0;
    let mut cur_lines: Vec<String> = Vec::new();
    let mut cur_spans: Vec<Vec<InlineCodeSpan>> = Vec::new();
    let mut i: usize = 0;
    while i < normal_lines.len()
        invariant
            i <= normal_lines@.len(),
            nl == numbered_view(normal_lines@),
            blocks_upto(nl, i as int).0 == blocks_view(blocks@),
            blocks_upto(nl, i as int).1 == if has_current {
                Some(
                    DiagramBlockV {
                        start_line: start as int,
                        lines: strings_view(cur_lines@),
                        inline_code_spans: span_lists_view(cur_spans@),
                    },
                )
            } else {
                None::<DiagramBlockV>
            },
            !has_current ==> cur_lines@.len() == 0 && cur_spans@.len() == 0,
        decreases normal_lines@.len() - i,
    {
        let line_num = normal_lines[i].0;
        let line = &normal_lines[i].1;
        proof {
            assert(nl[i as int] == (line_num as int, line@));
        }
        let chars = chars_of(line.as_str());
        if is_blank_vec(&chars) {
            if has_current {
                let ghost before = blocks_view(blocks@);
                let mut taken_lines: Vec<String> = Vec::new();
                let mut taken_spans: Vec<Vec<InlineCodeSpan>> = Vec::new();
                std::mem::swap(&mut taken_lines, &mut cur_lines);
                std::mem::swap(&mut taken_spans, &mut cur_spans);
                if taken_lines.len() > 0 {
                    blocks.push(DiagramBlock { start_line: start, lines: taken_lines, inline_code_spans: taken_spans });
                    proof {
                        assert(blocks_view(blocks@) =~= before.push(blocks@[blocks@.len() - 1]@));
                    }
                }
                has_current = false;
            }
        } else {
            let (masked_line, spans) = mask_inline_code(line.as_str());
            let ghost lv = strings_view(cur_lines@);
            let ghost sv = span_lists_view(cur_spans@);
            cur_lines.push(masked_line);
            cur_spans.push(spans);
            proof {
                assert(strings_view(cur_lines@) =~= lv.push(cur_lines@[cur_lines@.len() - 1]@));
                assert(span_lists_view(cur_spans@) =~= sv.push(spans_view(cur_spans@[cur_spans@.len() - 1]@)));
            }
            if !has_current {
                start = line_num;
                has_current = true;
                proof {
                    assert(strings_view(cur_lines@) =~= seq![masked(line@, spans_from(line@, 0))]);
                    assert(span_lists_view(cur_spans@) =~= seq![spans_from(line@, 0)]);
                }
            }
        }
        i += 1;
    }
    if has_current && cur_lines.len() > 0 {
        let ghost before = blocks_view(blocks@);
        blocks.push(DiagramBlock { start_line: start, lines: cur_lines, inline_code_spans: cur_spans });
        proof {
            assert(blocks_view(blocks@) =~= before.push(blocks@[blocks@.len() - 1]@));
        }
    }
    blocks
}

} // verus!
