//! Classification of what processing changed between an input and its
//! output: destructive changes (bad), constructive changes (good) and
//! neutral ones. Each change carries its impact on quality in hundredths,
//! from -100 (very bad) to +100 (very good).

use vstd::prelude::*;

use crate::fences::decimal_exec;
use crate::fences::decimal;
use crate::text::{chars_of, contains_seq, contains_vec, lines, slice_vec, split_lines, string_of};

verus! {

/// Reasons for destructive transformations
#[derive(Debug, Clone, Copy, PartialEq, Eq, Structural)]
pub enum DestructiveReason {
    ContentDeletion,
    CharacterCorruption,
    SemanticChange,
    DataLoss,
}

/// Reasons for constructive transformations
#[derive(Debug, Clone, Copy, PartialEq, Eq, Structural)]
pub enum ConstructiveReason {
    /// `↓` becomes `↓↓` for alignment
    ArrowDuplication,
    /// Parent boxes grow to contain children
    BoxExpansion,
    WhitespaceNormalization,
    /// Side-by-side box alignment
    VisualAlignment,
    /// Fixing malformed borders
    BorderCorrection,
}

/// Reasons for neutral transformations
#[derive(Debug, Clone, Copy, PartialEq, Eq, Structural)]
pub enum NeutralReason {
    CaseNormalization,
    EncodingNormalization,
    LineEndingNormalization,
    WhitespaceNormalization,
}

/// Classification of transformation types
#[derive(Debug, Clone, Copy, PartialEq, Eq, Structural)]
pub enum TransformationType {
    /// Destructive changes that must be prevented
    Destructive(DestructiveReason),
    /// Constructive changes that improve quality
    Constructive(ConstructiveReason),
    /// Neutral changes that don't affect meaning
    Neutral(NeutralReason),
}

/// Location of a transformation
#[derive(Debug, Clone, Copy, PartialEq, Eq, Structural)]
pub struct Location {
    pub line: usize,
    pub col_start: usize,
    pub col_end: usize,
}

/// Individual transformation instance
#[derive(Debug, Clone)]
pub struct Transformation {
    pub transform_type: TransformationType,
    pub location: Location,
    pub description: String,
    /// Impact on quality in hundredths: -100 (very bad) to +100 (very good)
    pub impact: i32,
}

/// A transformation as plain values.
pub struct TransformationV {
    pub transform_type: TransformationType,
    pub location: Location,
    pub description: Seq<char>,
    pub impact: int,
}

impl View for Transformation {
    type V = TransformationV;

    open spec fn view(&self) -> TransformationV {
        TransformationV {
            transform_type: self.transform_type,
            location: self.location,
            description: self.description@,
            impact: self.impact as int,
        }
    }
}

/// Summary of all transformations: how many of each kind, and the sum of
/// their impacts in hundredths.
#[derive(Debug, Clone, Copy)]
pub struct TransformationSummary {
    pub destructive_count: usize,
    pub constructive_count: usize,
    pub neutral_count: usize,
    pub net_impact: i128,
}

/// Analysis of transformations between input and output
#[derive(Debug, Clone)]
pub struct TransformationAnalysis {
    pub transformations: Vec<Transformation>,
    pub summary: TransformationSummary,
}

pub open spec fn transformations_view(v: Seq<Transformation>) -> Seq<TransformationV> {
    v.map_values(|t: Transformation| t@)
}

// ---------------------------------------------------------------------
// Characters
// ---------------------------------------------------------------------

/// What `char::is_alphabetic` answers for a character.
pub uninterp spec fn alphabetic(c: char) -> bool;

/// `char::is_alphabetic`: whether the character has the Unicode
/// `Alphabetic` property; the contract names the answer and says nothing
/// more of it.
#[verifier::external_body]
pub(crate) fn char_is_alphabetic(c: char) -> (b: bool)
    ensures
        b == alphabetic(c),
{
    c.is_alphabetic()
}

pub open spec fn is_arrow(c: char) -> bool {
    c == '↓' || c == '↑' || c == '←' || c == '→'
}

pub(crate) fn is_arrow_exec(c: char) -> (b: bool)
    ensures
        b == is_arrow(c),
{
    c == '↓' || c == '↑' || c == '←' || c == '→'
}

/// The number of arrows in a text.
pub open spec fn count_arrows(s: Seq<char>) -> nat
    decreases s.len(),
{
    if s.len() == 0 {
        0
    } else {
        count_arrows(s.drop_last()) + if is_arrow(s.last()) { 1nat } else { 0nat }
    }
}

pub open spec fn min_int(a: int, b: int) -> int {
    if a <= b { a } else { b }
}

pub open spec fn max_int(a: int, b: int) -> int {
    if a >= b { a } else { b }
}

/// The text from `radius` characters before `p` to `radius` after it,
/// cut at the text's ends.
pub open spec fn context(s: Seq<char>, p: int, radius: int) -> Seq<char> {
    s.subrange(max_int(p - radius, 0), min_int(p + radius + 1, s.len() as int))
}

/// A space of the input became an arrow, and the output holds at least two
/// arrows from five characters before that place to five after it.
pub open spec fn arrow_duplication(a: Seq<char>, b: Seq<char>, ip: int, op: int) -> bool {
    &&& 0 <= ip < a.len()
    &&& a[ip] == ' '
    &&& 0 <= op < b.len()
    &&& is_arrow(b[op])
    &&& count_arrows(context(b, op, 5)) >= 2
}

/// The characters of the box borders, in a row.
pub open spec fn border_run() -> Seq<char> {
    seq!['┌', '┐', '└', '┘', '│', '─']
}

/// Within ten characters of `p` the text holds a letter, and it does not
/// hold the run of box-border characters.
pub open spec fn in_text_content(s: Seq<char>, p: int) -> bool {
    let c = context(s, p, 10);
    &&& exists|i: int| 0 <= i < c.len() && alphabetic(#[trigger] c[i])
    &&& !contains_seq(c, border_run())
}

fn count_arrows_vec(s: &Vec<char>) -> (n: usize)
    ensures
        n == count_arrows(s@),
{
    let mut n: usize = 0;
    let mut i: usize = 0;
    while i < s.len()
        invariant
            i <= s.len(),
            n == count_arrows(s@.take(i as int)),
            n <= i,
        decreases s.len() - i,
    {
        assert(s@.take(i as int + 1).drop_last() =~= s@.take(i as int));
        if is_arrow_exec(s[i]) {
            n = n + 1;
        }
        i = i + 1;
    }
    assert(s@.take(s.len() as int) =~= s@);
    n
}

fn context_vec(s: &Vec<char>, p: usize, radius: usize) -> (c: Vec<char>)
    requires
        p < s.len(),
        radius <= 10,
    ensures
        c@ == context(s@, p as int, radius as int),
{
    let start = if p >= radius { p - radius } else { 0 };
    let end = if s.len() - p > radius { p + radius + 1 } else { s.len() };
    slice_vec(s, start, end)
}

/// Check if this is arrow duplication for alignment
fn is_arrow_duplication(input_chars: &Vec<char>, output_chars: &Vec<char>, input_pos: usize, output_pos: usize) -> (b: bool)
    ensures
        b == arrow_duplication(input_chars@, output_chars@, input_pos as int, output_pos as int),
{
    if input_pos < input_chars.len() && input_chars[input_pos] == ' ' && output_pos < output_chars.len()
        && is_arrow_exec(output_chars[output_pos]) {
        let ctx = context_vec(output_chars, output_pos, 5);
        count_arrows_vec(&ctx) >= 2
    } else {
        false
    }
}

/// Check if this is box expansion (constructive); no change is taken for
/// one yet.
fn is_box_expansion() -> (b: bool)
    ensures
        !b,
{
    false
}

/// Check if a whitespace change is diagram-related (not destructive); no
/// change is taken for one yet.
fn is_diagram_whitespace_change() -> (b: bool)
    ensures
        !b,
{
    false
}

/// Check if position is in text content (not diagram elements)
fn is_in_text_content(chars: &Vec<char>, pos: usize) -> (b: bool)
    requires
        pos < chars.len(),
    ensures
        b == in_text_content(chars@, pos as int),
{
    let ctx = context_vec(chars, pos, 10);
    let mut any = false;
    let mut i: usize = 0;
    while i < ctx.len()
        invariant
            i <= ctx.len(),
            any == exists|q: int| 0 <= q < i && alphabetic(#[trigger] ctx@[q]),
        decreases ctx.len() - i,
    {
        if char_is_alphabetic(ctx[i]) {
            any = true;
        }
        i = i + 1;
    }
    let run = vec!['┌', '┐', '└', '┘', '│', '─'];
    assert(run@ =~= border_run());
    any && !contains_vec(&ctx, &run)
}

// ---------------------------------------------------------------------
// Classification of one changed character
// ---------------------------------------------------------------------

/// A constructive change: a space (or a `↓`) that became an arrow as part
/// of an alignment. Box expansion is not taken for one yet.
pub open spec fn constructive_spec(ic: char, oc: char, a: Seq<char>, b: Seq<char>, ip: int, op: int) -> Option<(TransformationType, int)> {
    if ic == '↓' && oc == '↓' && arrow_duplication(a, b, ip, op) {
        Some((TransformationType::Constructive(ConstructiveReason::ArrowDuplication), 30))
    } else if ic == ' ' && is_arrow(oc) && arrow_duplication(a, b, ip, op) {
        Some((TransformationType::Constructive(ConstructiveReason::ArrowDuplication), 30))
    } else {
        None
    }
}

/// A destructive change: an arrow or a `│` in text, or a character that
/// became a space.
pub open spec fn destructive_spec(ic: char, oc: char, a: Seq<char>, ip: int) -> Option<(TransformationType, int)> {
    if is_arrow(oc) && in_text_content(a, ip) {
        Some((TransformationType::Destructive(DestructiveReason::CharacterCorruption), -80))
    } else if oc == '│' && in_text_content(a, ip) {
        Some((TransformationType::Destructive(DestructiveReason::CharacterCorruption), -60))
    } else if ic != ' ' && oc == ' ' {
        Some((TransformationType::Destructive(DestructiveReason::ContentDeletion), -50))
    } else {
        None
    }
}

/// Constructive first, then destructive, else neutral.
pub open spec fn classify_spec(ic: char, oc: char, a: Seq<char>, b: Seq<char>, ip: int, op: int) -> (TransformationType, int) {
    match constructive_spec(ic, oc, a, b, ip, op) {
        Some(r) => r,
        None => match destructive_spec(ic, oc, a, ip) {
            Some(r) => r,
            None => (TransformationType::Neutral(NeutralReason::EncodingNormalization), 0),
        },
    }
}

/// Check for constructive transformations
fn check_constructive_transformation(
    input_char: char,
    output_char: char,
    input_chars: &Vec<char>,
    output_chars: &Vec<char>,
    input_pos: usize,
    output_pos: usize,
) -> (r: Option<(TransformationType, i32)>)
    ensures
        match r {
            Some((t, v)) => constructive_spec(input_char, output_char, input_chars@, output_chars@, input_pos as int, output_pos as int) == Some((t, v as int)),
            None => constructive_spec(input_char, output_char, input_chars@, output_chars@, input_pos as int, output_pos as int) is None,
        },
{
    if input_char == '↓' && output_char == '↓' && is_arrow_duplication(input_chars, output_chars, input_pos, output_pos) {
        return Some((TransformationType::Constructive(ConstructiveReason::ArrowDuplication), 30));
    }
    if input_char == ' ' && is_arrow_exec(output_char) && is_arrow_duplication(input_chars, output_chars, input_pos, output_pos) {
        return Some((TransformationType::Constructive(ConstructiveReason::ArrowDuplication), 30));
    }
    if is_box_expansion() {
        return Some((TransformationType::Constructive(ConstructiveReason::BoxExpansion), 20));
    }
    None
}

/// Check for destructive transformations
fn check_destructive_transformation(input_char: char, output_char: char, input_chars: &Vec<char>, input_pos: usize) -> (r: Option<(TransformationType, i32)>)
    requires
        input_pos < input_chars.len(),
    ensures
        match r {
            Some((t, v)) => destructive_spec(input_char, output_char, input_chars@, input_pos as int) == Some((t, v as int)),
            None => destructive_spec(input_char, output_char, input_chars@, input_pos as int) is None,
        },
{
    if is_arrow_exec(output_char) && is_in_text_content(input_chars, input_pos) {
        return Some((TransformationType::Destructive(DestructiveReason::CharacterCorruption), -80));
    }
    if output_char == '│' && is_in_text_content(input_chars, input_pos) {
        return Some((TransformationType::Destructive(DestructiveReason::CharacterCorruption), -60));
    }
    if input_char != ' ' && output_char == ' ' && !is_diagram_whitespace_change() {
        return Some((TransformationType::Destructive(DestructiveReason::ContentDeletion), -50));
    }
    None
}

/// Classify the type of character transformation
fn classify_character_transformation(
    input_char: char,
    output_char: char,
    input_chars: &Vec<char>,
    output_chars: &Vec<char>,
    input_pos: usize,
    output_pos: usize,
) -> (r: (TransformationType, i32))
    requires
        input_pos < input_chars.len(),
    ensures
        (r.0, r.1 as int) == classify_spec(input_char, output_char, input_chars@, output_chars@, input_pos as int, output_pos as int),
{
    if let Some(result) = check_constructive_transformation(input_char, output_char, input_chars, output_chars, input_pos, output_pos) {
        return result;
    }
    if let Some(result) = check_destructive_transformation(input_char, output_char, input_chars, input_pos) {
        return result;
    }
    (TransformationType::Neutral(NeutralReason::EncodingNormalization), 0)
}

/// `'x' → 'y'`.
pub open spec fn change_text(ic: char, oc: char) -> Seq<char> {
    seq!['\'', ic, '\'', ' ', '→', ' ', '\'', oc, '\'']
}

/// The transformation recorded where the lines first differ at `p`.
pub open spec fn difference_spec(a: Seq<char>, b: Seq<char>, line: usize, p: int) -> TransformationV {
    let (t, v) = classify_spec(a[p], b[p], a, b, p, p);
    TransformationV {
        transform_type: t,
        location: Location { line, col_start: p as usize, col_end: (p + 1) as usize },
        description: change_text(a[p], b[p]),
        impact: v,
    }
}

/// Analyze a specific character difference
fn analyze_character_difference(line_idx: usize, pos: usize, input_chars: &Vec<char>, output_chars: &Vec<char>) -> (t: Transformation)
    requires
        pos < input_chars.len(),
        pos < output_chars.len(),
    ensures
        t@ == difference_spec(input_chars@, output_chars@, line_idx, pos as int),
{
    let input_char = input_chars[pos];
    let output_char = output_chars[pos];
    let (transform_type, impact) = classify_character_transformation(input_char, output_char, input_chars, output_chars, pos, pos);
    let d = vec!['\'', input_char, '\'', ' ', '→', ' ', '\'', output_char, '\''];
    assert(d@ =~= change_text(input_char, output_char));
    Transformation {
        transform_type,
        location: Location { line: line_idx, col_start: pos, col_end: pos + 1 },
        description: string_of(&d),
        impact,
    }
}

// ---------------------------------------------------------------------
// Lines
// ---------------------------------------------------------------------

/// The differences in the first `k` characters: one where each run of
/// differing characters starts.
pub open spec fn line_changes(a: Seq<char>, b: Seq<char>, line: usize, k: int) -> Seq<TransformationV>
    decreases k,
{
    if k <= 0 {
        Seq::empty()
    } else {
        let prev = line_changes(a, b, line, k - 1);
        let p = k - 1;
        if a[p] != b[p] && (p == 0 || a[p - 1] == b[p - 1]) {
            prev.push(difference_spec(a, b, line, p))
        } else {
            prev
        }
    }
}

/// `Content length mismatch: m vs n chars`.
pub open spec fn length_text(m: nat, n: nat) -> Seq<char> {
    "Content length mismatch: "@ + decimal(m) + " vs "@ + decimal(n) + " chars"@
}

/// The changes of one line: a difference where each run of differing
/// characters starts (over the length both lines have), then data loss when
/// the lengths differ.
pub open spec fn line_transformations(a: Seq<char>, b: Seq<char>, line: usize) -> Seq<TransformationV> {
    let m = min_int(a.len() as int, b.len() as int);
    let t = line_changes(a, b, line, m);
    if a.len() != b.len() {
        t.push(TransformationV {
            transform_type: TransformationType::Destructive(DestructiveReason::DataLoss),
            location: Location { line, col_start: m as usize, col_end: max_int(a.len() as int, b.len() as int) as usize },
            description: length_text(a.len(), b.len()),
            impact: -30,
        })
    } else {
        t
    }
}

/// Every impact lies between -100 and 100.
pub open spec fn impacts_bounded(ts: Seq<TransformationV>) -> bool {
    forall|i: int| 0 <= i < ts.len() ==> -100 <= #[trigger] ts[i].impact <= 100
}

fn push_text(out: &mut Vec<char>, s: &str)
    ensures
        final(out)@ == old(out)@ + s@,
{
    let v = chars_of(s);
    crate::text::append_chars(out, &v);
}

/// Analyze transformations within a single line
fn analyze_line_transformations(line_idx: usize, input_chars: &Vec<char>, output_chars: &Vec<char>, transformations: &mut Vec<Transformation>)
    requires
        impacts_bounded(transformations_view(old(transformations)@)),
    ensures
        transformations_view(final(transformations)@) == transformations_view(old(transformations)@)
            + line_transformations(input_chars@, output_chars@, line_idx),
        impacts_bounded(transformations_view(final(transformations)@)),
{
    let ghost start = transformations_view(transformations@);
    let m = if input_chars.len() <= output_chars.len() { input_chars.len() } else { output_chars.len() };
    let mut p: usize = 0;
    while p < m
        invariant
            p <= m,
            m == min_int(input_chars.len() as int, output_chars.len() as int),
            transformations_view(transformations@) == start + line_changes(input_chars@, output_chars@, line_idx, p as int),
            impacts_bounded(transformations_view(transformations@)),
        decreases m - p,
    {
        if input_chars[p] != output_chars[p] && (p == 0 || input_chars[p - 1] == output_chars[p - 1]) {
            let t = analyze_character_difference(line_idx, p, input_chars, output_chars);
            let ghost before = transformations_view(transformations@);
            transformations.push(t);
            assert(transformations_view(transformations@) =~= before.push(t@));
        }
        p = p + 1;
    }
    if input_chars.len() != output_chars.len() {
        let mut d: Vec<char> = Vec::new();
        push_text(&mut d, "Content length mismatch: ");
        let x = decimal_exec(input_chars.len());
        crate::text::append_chars(&mut d, &x);
        push_text(&mut d, " vs ");
        let y = decimal_exec(output_chars.len());
        crate::text::append_chars(&mut d, &y);
        push_text(&mut d, " chars");
        assert(d@ =~= length_text(input_chars.len() as nat, output_chars.len() as nat));
        let end = if input_chars.len() >= output_chars.len() { input_chars.len() } else { output_chars.len() };
        let t = Transformation {
            transform_type: TransformationType::Destructive(DestructiveReason::DataLoss),
            location: Location { line: line_idx, col_start: m, col_end: end },
            description: string_of(&d),
            impact: -30,
        };
        let ghost before = transformations_view(transformations@);
        transformations.push(t);
        assert(transformations_view(transformations@) =~= before.push(t@));
    }
}

// ---------------------------------------------------------------------
// Texts
// ---------------------------------------------------------------------

/// The changes of the first `k` line pairs, line by line.
pub open spec fn all_changes(il: Seq<Seq<char>>, ol: Seq<Seq<char>>, k: int) -> Seq<TransformationV>
    decreases k,
{
    if k <= 0 {
        Seq::empty()
    } else {
        all_changes(il, ol, k - 1) + line_transformations(il[k - 1], ol[k - 1], (k - 1) as usize)
    }
}

/// `Line count changed: m → n`.
pub open spec fn line_count_text(m: nat, n: nat) -> Seq<char> {
    "Line count changed: "@ + decimal(m) + " → "@ + decimal(n)
}

/// All changes from an input to an output: those of each pair of lines
/// that both have, then a change of the line count when it changed
/// (constructive when lines were added, data loss when lines were lost).
pub open spec fn analysis_spec(input: Seq<char>, output: Seq<char>) -> Seq<TransformationV> {
    let il = lines(input);
    let ol = lines(output);
    let t = all_changes(il, ol, min_int(il.len() as int, ol.len() as int));
    if il.len() != ol.len() {
        let grew = ol.len() > il.len();
        t.push(TransformationV {
            transform_type: if grew {
                TransformationType::Constructive(ConstructiveReason::VisualAlignment)
            } else {
                TransformationType::Destructive(DestructiveReason::DataLoss)
            },
            location: Location { line: max_int(il.len() as int, ol.len() as int) as usize, col_start: 0, col_end: 0 },
            description: line_count_text(il.len(), ol.len()),
            impact: if grew { 10 } else { -50 },
        })
    } else {
        t
    }
}

/// 0 for destructive, 1 for constructive, 2 for neutral.
pub open spec fn kind_of(t: TransformationType) -> int {
    match t {
        TransformationType::Destructive(_) => 0,
        TransformationType::Constructive(_) => 1,
        TransformationType::Neutral(_) => 2,
    }
}

/// How many of the changes are of a kind.
pub open spec fn count_kind(ts: Seq<TransformationV>, kind: int) -> nat
    decreases ts.len(),
{
    if ts.len() == 0 {
        0
    } else {
        count_kind(ts.drop_last(), kind) + if kind_of(ts.last().transform_type) == kind { 1nat } else { 0nat }
    }
}

/// The sum of the changes' impacts.
pub open spec fn impact_sum(ts: Seq<TransformationV>) -> int
    decreases ts.len(),
{
    if ts.len() == 0 {
        0
    } else {
        impact_sum(ts.drop_last()) + ts.last().impact
    }
}

proof fn lemma_count_kind_bound(ts: Seq<TransformationV>, kind: int)
    ensures
        count_kind(ts, kind) <= ts.len(),
    decreases ts.len(),
{
    if ts.len() > 0 {
        lemma_count_kind_bound(ts.drop_last(), kind);
    }
}

/// Calculate transformation summary
fn calculate_summary(transformations: &Vec<Transformation>) -> (s: TransformationSummary)
    requires
        impacts_bounded(transformations_view(transformations@)),
    ensures
        s.destructive_count == count_kind(transformations_view(transformations@), 0),
        s.constructive_count == count_kind(transformations_view(transformations@), 1),
        s.neutral_count == count_kind(transformations_view(transformations@), 2),
        s.net_impact == impact_sum(transformations_view(transformations@)),
{
    let ghost ts = transformations_view(transformations@);
    let mut destructive_count: usize = 0;
    let mut constructive_count: usize = 0;
    let mut neutral_count: usize = 0;
    let mut net_impact: i128 = 0;
    let mut i: usize = 0;
    while i < transformations.len()
        invariant
            i <= transformations.len(),
            ts == transformations_view(transformations@),
            impacts_bounded(ts),
            destructive_count == count_kind(ts.take(i as int), 0),
            constructive_count == count_kind(ts.take(i as int), 1),
            neutral_count == count_kind(ts.take(i as int), 2),
            net_impact == impact_sum(ts.take(i as int)),
            -100 * i <= net_impact <= 100 * i,
        decreases transformations.len() - i,
    {
        let ghost pre = ts.take(i as int);
        assert(ts.take(i as int + 1).drop_last() =~= pre);
        assert(ts.take(i as int + 1).last() == transformations@[i as int]@);
        proof {
            lemma_count_kind_bound(pre, 0);
            lemma_count_kind_bound(pre, 1);
            lemma_count_kind_bound(pre, 2);
        }
        let t = &transformations[i];
        assert(-100 <= ts[i as int].impact <= 100);
        net_impact = net_impact + t.impact as i128;
        match t.transform_type {
            TransformationType::Destructive(_) => destructive_count = destructive_count + 1,
            TransformationType::Constructive(_) => constructive_count = constructive_count + 1,
            TransformationType::Neutral(_) => neutral_count = neutral_count + 1,
        }
        i = i + 1;
    }
    assert(ts.take(transformations.len() as int) =~= ts);
    TransformationSummary { destructive_count, constructive_count, neutral_count, net_impact }
}

/// Analyze transformations between input and output
pub fn analyze_transformations(input: &str, output: &str) -> (r: TransformationAnalysis)
    ensures
        transformations_view(r.transformations@) == analysis_spec(input@, output@),
        r.summary.destructive_count == count_kind(analysis_spec(input@, output@), 0),
        r.summary.constructive_count == count_kind(analysis_spec(input@, output@), 1),
        r.summary.neutral_count == count_kind(analysis_spec(input@, output@), 2),
        r.summary.net_impact == impact_sum(analysis_spec(input@, output@)),
{
    let input_lines = split_lines(&chars_of(input));
    let output_lines = split_lines(&chars_of(output));
    let ghost il = lines(input@);
    let ghost ol = lines(output@);
    let n = if input_lines.len() <= output_lines.len() { input_lines.len() } else { output_lines.len() };
    let mut transformations: Vec<Transformation> = Vec::new();
    let mut k: usize = 0;
    while k < n
        invariant
            k <= n,
            n == min_int(il.len() as int, ol.len() as int),
            input_lines@.len() == il.len(),
            output_lines@.len() == ol.len(),
            forall|i: int| 0 <= i < il.len() ==> (#[trigger] input_lines@[i])@ == il[i],
            forall|i: int| 0 <= i < ol.len() ==> (#[trigger] output_lines@[i])@ == ol[i],
            transformations_view(transformations@) == all_changes(il, ol, k as int),
            impacts_bounded(transformations_view(transformations@)),
        decreases n - k,
    {
        analyze_line_transformations(k, &input_lines[k], &output_lines[k], &mut transformations);
        k = k + 1;
    }
    if input_lines.len() != output_lines.len() {
        let grew = output_lines.len() > input_lines.len();
        let max_lines = if grew { output_lines.len() } else { input_lines.len() };
        let mut d: Vec<char> = Vec::new();
        push_text(&mut d, "Line count changed: ");
        let x = decimal_exec(input_lines.len());
        crate::text::append_chars(&mut d, &x);
        push_text(&mut d, " → ");
        let y = decimal_exec(output_lines.len());
        crate::text::append_chars(&mut d, &y);
        assert(d@ =~= line_count_text(il.len(), ol.len()));
        let t = Transformation {
            transform_type: if grew {
                TransformationType::Constructive(ConstructiveReason::VisualAlignment)
            } else {
                TransformationType::Destructive(DestructiveReason::DataLoss)
            },
            location: Location { line: max_lines, col_start: 0, col_end: 0 },
            description: string_of(&d),
            impact: if grew { 10 } else { -50 },
        };
        let ghost before = transformations_view(transformations@);
        transformations.push(t);
        assert(transformations_view(transformations@) =~= before.push(t@));
    }
    let summary = calculate_summary(&transformations);
    TransformationAnalysis { transformations, summary }
}

proof fn lemma_no_line_changes(a: Seq<char>, line: usize, k: int)
    ensures
        line_changes(a, a, line, k) == Seq::<TransformationV>::empty(),
    decreases k,
{
    if k > 0 {
        lemma_no_line_changes(a, line, k - 1);
    }
}

proof fn lemma_no_changes(l: Seq<Seq<char>>, k: int)
    requires
        k <= l.len(),
    ensures
        all_changes(l, l, k) == Seq::<TransformationV>::empty(),
    decreases k,
{
    if k > 0 {
        lemma_no_changes(l, k - 1);
        lemma_no_line_changes(l[k - 1], (k - 1) as usize, l[k - 1].len() as int);
        assert(Seq::<TransformationV>::empty() + Seq::<TransformationV>::empty() =~= Seq::<TransformationV>::empty());
    }
}

/// A text compared with itself shows no transformation, so every count and
/// the net impact are zero.
pub proof fn law_unchanged_text_has_no_transformations(text: Seq<char>)
    ensures
        analysis_spec(text, text) == Seq::<TransformationV>::empty(),
        count_kind(analysis_spec(text, text), 0) == 0,
        count_kind(analysis_spec(text, text), 1) == 0,
        count_kind(analysis_spec(text, text), 2) == 0,
        impact_sum(analysis_spec(text, text)) == 0,
{
    let l = lines(text);
    lemma_no_changes(l, l.len() as int);
}

} // verus!
