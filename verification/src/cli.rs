//! Command-line settings: processing modes, sizes, extensions, and the
//! rules that the parsed arguments must meet.

use vstd::prelude::*;

use crate::fences::byte_len_wide;
use crate::lists::{all_digits, digits_value, is_digit};
use crate::tables::{split_char, split_on, sv, vv};
use crate::text::{byte_len, chars_of, same_text, string_of, trim, trim_vec};

verus! {

/// How content is processed.
#[derive(Debug, Clone, Copy, PartialEq, Eq, Structural)]
pub enum Mode {
    /// Only normalize Markdown tables and lists.
    Safe,
    /// Detect and normalize ASCII diagrams.
    Diagram,
    /// Process as diagram mode, to compare without writing.
    Check,
}

/// What `str::to_lowercase` makes of a text.
pub uninterp spec fn lowercase_of(s: Seq<char>) -> Seq<char>;

/// What `str::to_uppercase` makes of a text.
pub uninterp spec fn uppercase_of(s: Seq<char>) -> Seq<char>;

/// `str::to_lowercase`: the text mapped to lowercase by the Unicode case
/// tables; the contract names the result and says nothing more of it.
#[verifier::external_body]
fn to_lowercase(s: &str) -> (r: String)
    ensures
        r@ == lowercase_of(s@),
{
    s.to_lowercase()
}

/// `str::to_uppercase`: the text mapped to uppercase by the Unicode case
/// tables; the contract names the result and says nothing more of it.
#[verifier::external_body]
fn to_uppercase(s: &str) -> (r: String)
    ensures
        r@ == uppercase_of(s@),
{
    s.to_uppercase()
}

/// The mode a lowercased name selects.
pub open spec fn mode_of_lowercase(l: Seq<char>) -> Option<Mode> {
    if l == "safe"@ {
        Some(Mode::Safe)
    } else if l == "diagram"@ {
        Some(Mode::Diagram)
    } else if l == "check"@ {
        Some(Mode::Check)
    } else {
        None
    }
}

/// The mode a name selects, ignoring case.
pub open spec fn mode_of_name(s: Seq<char>) -> Option<Mode> {
    mode_of_lowercase(lowercase_of(s))
}

/// The mode a lowercased name selects: `safe`, `diagram` or `check`.
pub fn mode_from_lowercase(l: &str) -> (r: Option<Mode>)
    ensures
        r == mode_of_lowercase(l@),
{
    if same_text(l, "safe") {
        Some(Mode::Safe)
    } else if same_text(l, "diagram") {
        Some(Mode::Diagram)
    } else if same_text(l, "check") {
        Some(Mode::Check)
    } else {
        None
    }
}

/// The mode a name selects (`safe`, `diagram` or `check`, in any case).
pub fn parse_mode(s: &str) -> (r: Option<Mode>)
    ensures
        r == mode_of_name(s@),
{
    let l = to_lowercase(s);
    mode_from_lowercase(l.as_str())
}

/// With `--all`, diagram mode is used whatever mode was asked for.
pub fn effective_mode(all: bool, mode: Mode) -> (r: Mode)
    ensures
        r == (if all { Mode::Diagram } else { mode }),
{
    if all {
        Mode::Diagram
    } else {
        mode
    }
}

/// Fences are repaired when asked for, or with `--all`.
pub fn effective_fences(all: bool, fences: bool) -> (r: bool)
    ensures
        r == (all || fences),
{
    all || fences
}

// ---------------------------------------------------------------------
// Sizes
// ---------------------------------------------------------------------

pub const KB: u64 = 1024;
pub const MB: u64 = 1048576;
pub const GB: u64 = 1073741824;

/// Why a size was refused.
#[derive(Debug, Clone, Copy, PartialEq, Eq, Structural)]
pub enum SizeError {
    /// Nothing but whitespace.
    Empty,
    /// The number is not a valid `u64`.
    Invalid,
    /// The size in bytes does not fit in a `u64`.
    TooLarge,
}

/// `str::parse::<u64>`: an optional `+`, then at least one ASCII digit,
/// with the value within `u64`.
pub open spec fn u64_value(s: Seq<char>) -> Option<nat> {
    let d = if s.len() > 0 && s[0] == '+' { s.skip(1) } else { s };
    if d.len() > 0 && all_digits(d) && digits_value(d) <= u64::MAX {
        Some(digits_value(d))
    } else {
        None
    }
}

/// The number part of an uppercased size and its unit in bytes: a `GB`,
/// `MB`, `KB` or `B` suffix is cut off.
pub open spec fn size_unit(u: Seq<char>) -> (Seq<char>, nat) {
    let n = u.len() as int;
    if n >= 2 && u[n - 2] == 'G' && u[n - 1] == 'B' {
        (u.take(n - 2), GB as nat)
    } else if n >= 2 && u[n - 2] == 'M' && u[n - 1] == 'B' {
        (u.take(n - 2), MB as nat)
    } else if n >= 2 && u[n - 2] == 'K' && u[n - 1] == 'B' {
        (u.take(n - 2), KB as nat)
    } else if n >= 1 && u[n - 1] == 'B' {
        (u.take(n - 1), 1)
    } else {
        (u, 1)
    }
}

/// The size an uppercased, trimmed size text gives in bytes.
pub open spec fn size_of_uppercase(u: Seq<char>) -> Result<u64, SizeError> {
    let (num, mult) = size_unit(u);
    match u64_value(trim(num)) {
        None => Err(SizeError::Invalid),
        Some(v) => if v * mult <= u64::MAX {
            Ok((v * mult) as u64)
        } else {
            Err(SizeError::TooLarge)
        },
    }
}

/// A size such as `500`, `10B`, `1KB`, `2mb` or ` 3GB `, in bytes.
pub open spec fn parse_size_spec(s: Seq<char>) -> Result<u64, SizeError> {
    let t = trim(s);
    if t.len() == 0 {
        Err(SizeError::Empty)
    } else {
        size_of_uppercase(uppercase_of(t))
    }
}

proof fn lemma_digits_value_grows(d: Seq<char>, k: int)
    requires
        all_digits(d),
        0 <= k <= d.len(),
    ensures
        digits_value(d.take(k)) <= digits_value(d),
    decreases d.len() - k,
{
    if k < d.len() {
        lemma_digits_value_grows(d, k + 1);
        assert(d.take(k + 1).drop_last() =~= d.take(k));
    } else {
        assert(d.take(k) =~= d);
    }
}

fn digit_of(c: char) -> (v: u128)
    requires
        is_digit(c),
    ensures
        v == c as int - '0' as int,
{
    if c == '0' { 0 } else if c == '1' { 1 } else if c == '2' { 2 } else if c == '3' { 3 } else if c == '4' {
        4
    } else if c == '5' { 5 } else if c == '6' { 6 } else if c == '7' { 7 } else if c == '8' { 8 } else { 9 }
}

/// `s.parse::<u64>()`.
fn parse_u64(s: &Vec<char>) -> (r: Option<u64>)
    ensures
        match r {
            Some(v) => u64_value(s@) == Some(v as nat),
            None => u64_value(s@) is None,
        },
{
    let from: usize = if s.len() > 0 && s[0] == '+' { 1 } else { 0 };
    let ghost d = if s@.len() > 0 && s@[0] == '+' { s@.skip(1) } else { s@ };
    assert(d =~= s@.skip(from as int));
    if from >= s.len() {
        return None;
    }
    let mut val: u128 = 0;
    let mut i: usize = from;
    while i < s.len()
        invariant
            from <= i <= s@.len(),
            d == s@.skip(from as int),
            d == (if s@.len() > 0 && s@[0] == '+' { s@.skip(1) } else { s@ }),
            all_digits(d.take(i - from)),
            val == digits_value(d.take(i - from)),
            val <= u64::MAX,
        decreases s@.len() - i,
    {
        let c = s[i];
        proof {
            assert(d.take(i - from + 1).drop_last() =~= d.take(i - from));
            assert(d.take(i - from + 1).last() == c);
        }
        if !('0' <= c && c <= '9') {
            proof {
                assert(d[i - from] == c);
            }
            return None;
        }
        let nv = val * 10 + digit_of(c);
        if nv > 0xFFFF_FFFF_FFFF_FFFF {
            proof {
                if all_digits(d) {
                    lemma_digits_value_grows(d, i - from + 1);
                }
            }
            return None;
        }
        val = nv;
        i += 1;
        proof {
            assert forall|q: int| 0 <= q < d.take(i - from).len() implies is_digit(#[trigger] d.take(i - from)[q]) by {
                if q < i - from - 1 {
                    assert(d.take(i - from)[q] == d.take(i - from - 1)[q]);
                }
            }
        }
    }
    assert(d.take(i - from) =~= d);
    Some(val as u64)
}

/// Parse a size with an optional unit (`B`, `KB`, `MB`, `GB`, in any case)
/// into bytes.
pub fn parse_size(s: &str) -> (r: Result<u64, SizeError>)
    ensures
        r == parse_size_spec(s@),
{
    let original = trim_vec(&chars_of(s));
    if original.len() == 0 {
        return Err(SizeError::Empty);
    }
    let up = to_uppercase(string_of(&original).as_str());
    size_from_uppercase(up.as_str())
}

/// The size in bytes of an uppercased, trimmed size text: a `GB`, `MB`,
/// `KB` or `B` suffix sets the unit, the rest (trimmed) is the number.
pub fn size_from_uppercase(u: &str) -> (r: Result<u64, SizeError>)
    ensures
        r == size_of_uppercase(u@),
{
    let up = chars_of(u);
    let n = up.len();
    let (cut, mult): (usize, u64) = if n >= 2 && up[n - 2] == 'G' && up[n - 1] == 'B' {
        (2, GB)
    } else if n >= 2 && up[n - 2] == 'M' && up[n - 1] == 'B' {
        (2, MB)
    } else if n >= 2 && up[n - 2] == 'K' && up[n - 1] == 'B' {
        (2, KB)
    } else if n >= 1 && up[n - 1] == 'B' {
        (1, 1)
    } else {
        (0, 1)
    };
    let num = crate::text::slice_vec(&up, 0, n - cut);
    proof {
        assert(num@ =~= size_unit(up@).0);
    }
    let value = match parse_u64(&trim_vec(&num)) {
        Some(v) => v,
        None => {
            return Err(SizeError::Invalid);
        },
    };
    match value.checked_mul(mult) {
        Some(bytes) => Ok(bytes),
        None => Err(SizeError::TooLarge),
    }
}

// ---------------------------------------------------------------------
// Extensions
// ---------------------------------------------------------------------

/// Trailing dots dropped, as long as more than one byte is left.
pub open spec fn strip_dots(e: Seq<char>) -> Seq<char>
    decreases e.len(),
{
    if e.len() > 0 && e.last() == '.' && byte_len(e) > 1 {
        strip_dots(e.drop_last())
    } else {
        e
    }
}

/// The extension from a trimmed text `t` and its lowercased form `low`:
/// with a leading dot (added when `t` has none) and without trailing dots.
pub open spec fn ext_from_lowercase(t: Seq<char>, low: Seq<char>) -> Seq<char> {
    let e = if t.len() > 0 && t[0] == '.' {
        low
    } else {
        seq!['.'] + low
    };
    strip_dots(e)
}

/// An extension trimmed, lowercased, with a leading dot and without
/// trailing dots.
pub open spec fn norm_ext(s: Seq<char>) -> Seq<char> {
    let t = trim(s);
    ext_from_lowercase(t, lowercase_of(t))
}

/// The normalized extensions of the first `k`, empty ones and repeats
/// dropped, in order of first appearance.
pub open spec fn exts_upto(exts: Seq<Seq<char>>, k: int) -> Seq<Seq<char>>
    decreases k,
{
    if k <= 0 {
        Seq::empty()
    } else {
        let r = exts_upto(exts, k - 1);
        let e = norm_ext(exts[k - 1]);
        if e.len() == 0 || r.contains(e) {
            r
        } else {
            r.push(e)
        }
    }
}

fn strip_dots_vec(v: Vec<char>) -> (r: Vec<char>)
    ensures
        r@ == strip_dots(v@),
    decreases v@.len(),
{
    if v.len() > 0 && v[v.len() - 1] == '.' && byte_len_wide(&v) > 1 {
        let mut w = v;
        w.pop();
        strip_dots_vec(w)
    } else {
        v
    }
}

fn contains_text(v: &Vec<String>, x: &Vec<char>) -> (b: bool)
    ensures
        b == sv(v@).contains(x@),
{
    let ghost xs = sv(v@);
    let mut k: usize = 0;
    while k < v.len()
        invariant
            k <= v@.len(),
            xs == sv(v@),
            forall|q: int| 0 <= q < k ==> xs[q] != x@,
        decreases v@.len() - k,
    {
        if crate::text::same_chars(&chars_of(v[k].as_str()), x) {
            assert(xs[k as int] == x@);
            return true;
        }
        k += 1;
    }
    proof {
        if xs.contains(x@) {
            let q = choose|q: int| 0 <= q < xs.len() && xs[q] == x@;
            assert(xs[q] != x@);
        }
    }
    false
}

/// The extension from a trimmed text and its lowercased form: with a
/// leading dot (added when the trimmed text has none) and without trailing
/// dots.
pub fn ext_from_lowercase_text(t: &str, low: &str) -> (r: String)
    ensures
        r@ == ext_from_lowercase(t@, low@),
{
    let tv = chars_of(t);
    let lv = chars_of(low);
    let e = if tv.len() > 0 && tv[0] == '.' {
        lv
    } else {
        let mut d: Vec<char> = Vec::new();
        d.push('.');
        crate::text::append_chars(&mut d, &lv);
        assert(d@ =~= seq!['.'] + lv@);
        d
    };
    string_of(&strip_dots_vec(e))
}

/// Normalize extension list: trim, lowercase, ensure a leading dot, drop
/// trailing dots, and drop empty entries and repeats (first kept).
pub fn normalize_exts(exts: &Vec<String>) -> (r: Vec<String>)
    ensures
        sv(r@) == exts_upto(sv(exts@), exts@.len() as int),
{
    let ghost ev = sv(exts@);
    let mut out: Vec<String> = Vec::new();
    let mut k: usize = 0;
    while k < exts.len()
        invariant
            k <= exts@.len(),
            ev == sv(exts@),
            sv(out@) == exts_upto(ev, k as int),
        decreases exts@.len() - k,
    {
        let t = string_of(&trim_vec(&chars_of(exts[k].as_str())));
        let low = to_lowercase(t.as_str());
        let e = chars_of(ext_from_lowercase_text(t.as_str(), low.as_str()).as_str());
        assert(e@ == norm_ext(ev[k as int]));
        if e.len() > 0 && !contains_text(&out, &e) {
            let ghost b = sv(out@);
            let x = string_of(&e);
            out.push(x);
            assert(sv(out@) =~= b.push(x@));
        }
        k += 1;
    }
    out
}

/// The extensions used when none are given.
pub open spec fn default_exts() -> Seq<Seq<char>> {
    seq![".md"@, ".mdx"@, ".txt"@]
}

/// The extensions used when none are given: `.md`, `.mdx`, `.txt`.
pub fn default_extensions() -> (r: Vec<String>)
    ensures
        sv(r@) == default_exts(),
{
    let mut v: Vec<String> = Vec::new();
    v.push(string_of(&chars_of(".md")));
    v.push(string_of(&chars_of(".mdx")));
    v.push(string_of(&chars_of(".txt")));
    assert(sv(v@) =~= default_exts());
    v
}

/// The pieces of an `--ext` value, each trimmed (empty ones kept).
pub open spec fn ext_pieces(value: Seq<char>) -> Seq<Seq<char>> {
    split_on(value, ',').map_values(|p: Seq<char>| trim(p))
}

/// The extensions after an `--ext` value: the defaults are replaced on
/// first use, and the value's comma-separated pieces (trimmed) appended.
pub open spec fn add_ext_spec(current: Seq<Seq<char>>, value: Seq<char>) -> Seq<Seq<char>> {
    (if current == default_exts() { Seq::empty() } else { current }) + ext_pieces(value)
}

fn same_list(a: &Vec<String>, b: &Vec<String>) -> (r: bool)
    ensures
        r == (sv(a@) == sv(b@)),
{
    if a.len() != b.len() {
        assert(sv(a@).len() != sv(b@).len());
        return false;
    }
    let mut k: usize = 0;
    while k < a.len()
        invariant
            k <= a@.len(),
            a@.len() == b@.len(),
            forall|q: int| 0 <= q < k ==> sv(a@)[q] == sv(b@)[q],
        decreases a@.len() - k,
    {
        if !same_text(a[k].as_str(), b[k].as_str()) {
            assert(sv(a@)[k as int] != sv(b@)[k as int]);
            return false;
        }
        k += 1;
    }
    assert(sv(a@) =~= sv(b@));
    true
}

/// Add the extensions of an `--ext` value.
pub fn add_ext_value(current: &mut Vec<String>, value: &str)
    ensures
        sv(final(current)@) == add_ext_spec(sv(old(current)@), value@),
{
    let defaults = default_extensions();
    if same_list(current, &defaults) {
        *current = Vec::new();
    }
    let ghost base = sv(current@);
    let pieces = split_char(&chars_of(value), ',');
    let ghost pv = vv(pieces@);
    let mut k: usize = 0;
    while k < pieces.len()
        invariant
            k <= pieces@.len(),
            pv == vv(pieces@),
            pv == split_on(value@, ','),
            sv(current@) == base + pv.take(k as int).map_values(|p: Seq<char>| trim(p)),
        decreases pieces@.len() - k,
    {
        let ghost b = sv(current@);
        let x = string_of(&trim_vec(&pieces[k]));
        current.push(x);
        assert(sv(current@) =~= b.push(x@));
        k += 1;
        assert(sv(current@) =~= base + pv.take(k as int).map_values(|p: Seq<char>| trim(p)));
    }
    assert(pv.take(k as int) =~= pv);
}

/// Why the parsed arguments were refused.
#[derive(Debug, Clone, Copy, PartialEq, Eq, Structural)]
pub enum ArgsError {
    /// No path was given.
    MissingPaths,
    /// `--in-place` and `--check` were both given.
    CheckWithInPlace,
}

/// The rules the parsed arguments must meet: at least one path, and not
/// both `--in-place` and `--check`.
pub fn validate_args(path_count: usize, in_place: bool, check: bool) -> (r: Result<(), ArgsError>)
    ensures
        r == (if path_count == 0 {
            Err::<(), ArgsError>(ArgsError::MissingPaths)
        } else if in_place && check {
            Err(ArgsError::CheckWithInPlace)
        } else {
            Ok(())
        }),
{
    if path_count == 0 {
        Err(ArgsError::MissingPaths)
    } else if in_place && check {
        Err(ArgsError::CheckWithInPlace)
    } else {
        Ok(())
    }
}

} // verus!
