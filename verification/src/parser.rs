//! Markdown parsing for detecting and extracting diagram blocks.

use vstd::prelude::*;

use crate::text::{
    chars_of, contains_seq, contains_vec, count_matches, count_matches_vec, lines, split_lines,
    string_of, trim, trim_vec,
};

verus! {

/// Represents a line of Markdown and whether it's inside a code fence or ignore block.
#[derive(Debug, Clone, Copy, PartialEq, Eq, Structural)]
pub enum LineContext {
    /// Outside any code fence or ignore block
    Normal,
    /// Inside a code fence
    InCodeFence,
    /// Inside an ignore block (between ascfix:ignore markers)
    InIgnoreBlock,
}

pub open spec fn ignore_start_a() -> Seq<char> {
    "<!-- ascfix:ignore -->"@
}

pub open spec fn ignore_start_b() -> Seq<char> {
    "<!-- ascfix-ignore-start -->"@
}

pub open spec fn ignore_end_a() -> Seq<char> {
    "<!-- /ascfix:ignore -->"@
}

pub open spec fn ignore_end_b() -> Seq<char> {
    "<!-- ascfix-ignore-end -->"@
}

/// The trimmed line holds an ignore start marker.
pub open spec fn ignore_start_spec(line: Seq<char>) -> bool {
    contains_seq(trim(line), ignore_start_a()) || contains_seq(trim(line), ignore_start_b())
}

/// The trimmed line holds an ignore end marker.
pub open spec fn ignore_end_spec(line: Seq<char>) -> bool {
    contains_seq(trim(line), ignore_end_a()) || contains_seq(trim(line), ignore_end_b())
}

/// Check if a line contains an ascfix ignore start marker
/// (`<!-- ascfix:ignore -->` or `<!-- ascfix-ignore-start -->`).
pub fn is_ignore_start(line: &str) -> (b: bool)
    ensures
        b == ignore_start_spec(line@),
{
    let t = trim_vec(&chars_of(line));
    contains_vec(&t, &chars_of("<!-- ascfix:ignore -->")) || contains_vec(
        &t,
        &chars_of("<!-- ascfix-ignore-start -->"),
    )
}

/// Check if a line contains an ascfix ignore end marker
/// (`<!-- /ascfix:ignore -->` or `<!-- ascfix-ignore-end -->`).
pub fn is_ignore_end(line: &str) -> (b: bool)
    ensures
        b == ignore_end_spec(line@),
{
    let t = trim_vec(&chars_of(line));
    contains_vec(&t, &chars_of("<!-- /ascfix:ignore -->")) || contains_vec(
        &t,
        &chars_of("<!-- ascfix-ignore-end -->"),
    )
}

pub open spec fn ticks() -> Seq<char> {
    seq!['`', '`', '`']
}

pub open spec fn tildes() -> Seq<char> {
    seq!['~', '~', '~']
}

/// Scanner state (inside a fence, inside an ignore block) and the lines
/// kept so far, with their numbers and contexts, after the first `k` lines.
pub open spec fn contexts_upto(ls: Seq<Seq<char>>, k: int) -> ((bool, bool), Seq<(int, Seq<char>, LineContext)>)
    decreases k,
{
    if k <= 0 {
        ((false, false), Seq::empty())
    } else {
        let (st, out) = contexts_upto(ls, k - 1);
        let (in_fence, in_ignore) = st;
        let line = ls[k - 1];
        if ignore_start_spec(line) {
            ((in_fence, true), out)
        } else if ignore_end_spec(line) {
            ((in_fence, false), out)
        } else if in_ignore {
            (st, out.push((k - 1, line, LineContext::InIgnoreBlock)))
        } else {
            let b = count_matches(line, ticks());
            let t = count_matches(line, tildes());
            let f2 = if b % 2 == 1 || t % 2 == 1 {
                !in_fence
            } else {
                in_fence
            };
            if b > 0 || t > 0 {
                ((f2, in_ignore), out)
            } else {
                (
                    (f2, in_ignore),
                    out.push(
                        (
                            k - 1,
                            line,
                            if f2 {
                                LineContext::InCodeFence
                            } else {
                                LineContext::Normal
                            },
                        ),
                    ),
                )
            }
        }
    }
}

/// The lines of the text with their numbers and contexts: ignore markers
/// and fence marker lines are left out; a line with an odd number of
/// ```` ``` ```` or `~~~` toggles the fence.
pub open spec fn line_contexts(text: Seq<char>) -> Seq<(int, Seq<char>, LineContext)> {
    contexts_upto(lines(text), lines(text).len() as int).1
}

/// The entries of a context list in view form.
pub open spec fn contexts_view(v: Seq<(usize, String, LineContext)>) -> Seq<(int, Seq<char>, LineContext)> {
    v.map_values(|e: (usize, String, LineContext)| (e.0 as int, e.1@, e.2))
}

/// Parse Markdown content and return lines with their context (inside/outside
/// code fences and ignore blocks).
pub fn parse_line_contexts(text: &str) -> (r: Vec<(usize, String, LineContext)>)
    ensures
        contexts_view(r@) == line_contexts(text@),
{
    let ls = split_lines(&chars_of(text));
    let ghost lv = lines(text@);
    let ticks_v: Vec<char> = vec!['`', '`', '`'];
    let tildes_v: Vec<char> = vec!['~', '~', '~'];
    let mut result: Vec<(usize, String, LineContext)> = Vec::new();
    let mut in_fence = false;
    let mut in_ignore = false;
    let mut i: usize = 0;
    while i < ls.len()
        invariant
            i <= ls@.len(),
            ls@.len() == lv.len(),
            forall|k: int| 0 <= k < ls@.len() ==> (#[trigger] ls@[k])@ == lv[k],
            ticks_v@ == ticks(),
            tildes_v@ == tildes(),
            contexts_upto(lv, i as int) == ((in_fence, in_ignore), contexts_view(result@)),
        decreases ls@.len() - i,
    {
        let line = &ls[i];
        let ghost before = contexts_view(result@);
        let s = string_of(line);
        proof {
            assert(lv[i as int] == line@);
        }
        if is_ignore_start(s.as_str()) {
            in_ignore = true;
        } else if is_ignore_end(s.as_str()) {
            in_ignore = false;
        } else if in_ignore {
            result.push((i, s, LineContext::InIgnoreBlock));
            proof {
                assert(contexts_view(result@) =~= before.push((i as int, lv[i as int], LineContext::InIgnoreBlock)));
            }
        } else {
            let b = count_matches_vec(line, &ticks_v);
            let t = count_matches_vec(line, &tildes_v);
            if b % 2 == 1 || t % 2 == 1 {
                in_fence = !in_fence;
            }
            if !(b > 0 || t > 0) {
                let ctx = if in_fence {
                    LineContext::InCodeFence
                } else {
                    LineContext::Normal
                };
                result.push((i, s, ctx));
                proof {
                    assert(contexts_view(result@) =~= before.push((i as int, lv[i as int], ctx)));
                }
            }
        }
        i += 1;
    }
    result
}

/// The numbered lines outside code fences and ignore blocks.
pub open spec fn normal_lines_spec(text: Seq<char>) -> Seq<(int, Seq<char>)> {
    line_contexts(text).filter(|e: (int, Seq<char>, LineContext)| e.2 == LineContext::Normal).map_values(
        |e: (int, Seq<char>, LineContext)| (e.0, e.1),
    )
}

/// The numbered lines of a result in view form.
pub open spec fn numbered_view(v: Seq<(usize, String)>) -> Seq<(int, Seq<char>)> {
    v.map_values(|e: (usize, String)| (e.0 as int, e.1@))
}

/// Extract all normal (non-code-fence, non-ignored) lines from Markdown
/// content, with their line numbers.
pub fn extract_normal_lines(text: &str) -> (r: Vec<(usize, String)>)
    ensures
        numbered_view(r@) == normal_lines_spec(text@),
{
    let ctx = parse_line_contexts(text);
    let ghost cv = contexts_view(ctx@);
    let ghost pred = |e: (int, Seq<char>, LineContext)| e.2 == LineContext::Normal;
    let ghost proj = |e: (int, Seq<char>, LineContext)| (e.0, e.1);
    let mut r: Vec<(usize, String)> = Vec::new();
    let mut i: usize = 0;
    while i < ctx.len()
        invariant
            i <= ctx@.len(),
            cv == contexts_view(ctx@),
            pred == (|e: (int, Seq<char>, LineContext)| e.2 == LineContext::Normal),
            proj == (|e: (int, Seq<char>, LineContext)| (e.0, e.1)),
            numbered_view(r@) == cv.take(i as int).filter(pred).map_values(proj),
        decreases ctx@.len() - i,
    {
        let ghost before = numbered_view(r@);
        proof {
            reveal(Seq::filter);
            assert(cv.take(i + 1).drop_last() =~= cv.take(i as int));
            assert(cv.take(i + 1).last() == cv[i as int]);
        }
        if ctx[i].2 == LineContext::Normal {
            let s = crate::primitives::copy_string(&ctx[i].1);
            r.push((ctx[i].0, s));
            proof {
                assert(cv[i as int] == (ctx@[i as int].0 as int, ctx@[i as int].1@, ctx@[i as int].2));
                assert(numbered_view(r@) =~= before.push(proj(cv[i as int])));
                assert(cv.take(i + 1).filter(pred) == cv.take(i as int).filter(pred).push(cv[i as int]));
                assert(cv.take(i + 1).filter(pred).map_values(proj) =~= cv.take(i as int).filter(pred).map_values(proj).push(proj(cv[i as int])));
            }
        } else {
            proof {
                assert(cv.take(i + 1).filter(pred) == cv.take(i as int).filter(pred));
            }
        }
        i += 1;
    }
    proof {
        assert(cv.take(i as int) =~= cv);
    }
    r
}

} // verus!
