//! Character-level text utilities shared by the whole library.
//!
//! Text is modelled as `Seq<char>`, the view of `str` and `String`.
//! The spec functions here state what `str::lines`, `str::trim` and their
//! relatives compute; the exec functions compute the same on `Vec<char>`.

use vstd::prelude::*;

verus! {

broadcast use vstd::string::group_string_axioms;

/// `char::is_whitespace`: the Unicode `White_Space` property.
pub open spec fn is_ws(c: char) -> bool {
    ||| c == '\t' || c == '\n' || c == '\x0B' || c == '\x0C' || c == '\r' || c == ' '
    ||| c == '\u{85}' || c == '\u{A0}' || c == '\u{1680}'
    ||| ('\u{2000}' <= c && c <= '\u{200A}')
    ||| c == '\u{2028}' || c == '\u{2029}' || c == '\u{202F}' || c == '\u{205F}'
    ||| c == '\u{3000}'
}

/// Whitespace test, as `char::is_whitespace`.
pub fn char_is_ws(c: char) -> (b: bool)
    ensures
        b == is_ws(c),
{
    c == '\t' || c == '\n' || c == '\x0B' || c == '\x0C' || c == '\r' || c == ' ' || c == '\u{85}'
        || c == '\u{A0}' || c == '\u{1680}' || ('\u{2000}' <= c && c <= '\u{200A}') || c
        == '\u{2028}' || c == '\u{2029}' || c == '\u{202F}' || c == '\u{205F}' || c == '\u{3000}'
}

/// Number of leading whitespace characters.
pub open spec fn lead_ws(s: Seq<char>) -> nat
    decreases s.len(),
{
    if s.len() > 0 && is_ws(s[0]) {
        1 + lead_ws(s.drop_first())
    } else {
        0
    }
}

/// Number of trailing whitespace characters.
pub open spec fn trail_ws(s: Seq<char>) -> nat
    decreases s.len(),
{
    if s.len() > 0 && is_ws(s.last()) {
        1 + trail_ws(s.drop_last())
    } else {
        0
    }
}

/// `str::trim_start`.
pub open spec fn trim_start(s: Seq<char>) -> Seq<char> {
    s.skip(lead_ws(s) as int)
}

/// `str::trim_end`.
pub open spec fn trim_end(s: Seq<char>) -> Seq<char> {
    s.take(s.len() - trail_ws(s))
}

/// `str::trim`.
pub open spec fn trim(s: Seq<char>) -> Seq<char> {
    trim_end(trim_start(s))
}

/// True when the text holds nothing but whitespace.
pub open spec fn is_blank(s: Seq<char>) -> bool {
    forall|i: int| 0 <= i < s.len() ==> is_ws(#[trigger] s[i])
}

pub proof fn lemma_lead_ws_bound(s: Seq<char>)
    ensures
        lead_ws(s) <= s.len(),
        forall|i: int| 0 <= i < lead_ws(s) ==> is_ws(#[trigger] s[i]),
        lead_ws(s) < s.len() ==> !is_ws(s[lead_ws(s) as int]),
    decreases s.len(),
{
    if s.len() > 0 && is_ws(s[0]) {
        lemma_lead_ws_bound(s.drop_first());
        assert forall|i: int| 0 <= i < lead_ws(s) implies is_ws(#[trigger] s[i]) by {
            if i > 0 {
                assert(s[i] == s.drop_first()[i - 1]);
            }
        }
    }
}

pub proof fn lemma_trail_ws_bound(s: Seq<char>)
    ensures
        trail_ws(s) <= s.len(),
        forall|i: int| s.len() - trail_ws(s) <= i < s.len() ==> is_ws(#[trigger] s[i]),
        trail_ws(s) < s.len() ==> !is_ws(s[s.len() - trail_ws(s) - 1]),
    decreases s.len(),
{
    if s.len() > 0 && is_ws(s.last()) {
        lemma_trail_ws_bound(s.drop_last());
        assert forall|i: int| s.len() - trail_ws(s) <= i < s.len() implies is_ws(#[trigger] s[i]) by {
            if i < s.len() - 1 {
                assert(s[i] == s.drop_last()[i]);
            }
        }
    }
}

/// A blank text trims to nothing, and only a blank text does.
pub proof fn lemma_trim_empty_iff_blank(s: Seq<char>)
    ensures
        (trim(s).len() == 0) == is_blank(s),
        (trim_start(s).len() == 0) == is_blank(s),
{
    lemma_lead_ws_bound(s);
    let t = trim_start(s);
    lemma_trail_ws_bound(t);
    if lead_ws(s) < s.len() {
        assert(!is_ws(s[lead_ws(s) as int]));
        assert(t[0] == s[lead_ws(s) as int]);
        if trail_ws(t) == t.len() {
            assert(is_ws(t[0]));
        }
    } else {
        assert forall|i: int| 0 <= i < s.len() implies is_ws(#[trigger] s[i]) by {}
    }
}

/// Convert a string slice to its characters.
pub fn chars_of(s: &str) -> (v: Vec<char>)
    ensures
        v@ == s@,
{
    let mut v: Vec<char> = Vec::new();
    for c in it: s.chars()
        invariant
            it.seq() == s@,
            v@ == it.seq().take(it.index() as int),
    {
        v.push(c);
    }
    v
}


/// `String::push` appends one character.
pub assume_specification[ String::push ](string: &mut String, ch: char)
    ensures
        final(string)@ == old(string)@.push(ch),
;

/// Build a `String` from characters.
pub fn string_of(v: &Vec<char>) -> (s: String)
    ensures
        s@ == v@,
{
    let mut s = String::new();
    let mut i: usize = 0;
    while i < v.len()
        invariant
            i <= v.len(),
            s@ == v@.take(i as int),
        decreases v.len() - i,
    {
        s.push(v[i]);
        i += 1;
        assert(s@ =~= v@.take(i as int));
    }
    assert(v@.take(i as int) =~= v@);
    s
}

/// Characters `[from, to)` of `v` as a new vector.
pub fn slice_vec(v: &Vec<char>, from: usize, to: usize) -> (r: Vec<char>)
    requires
        from <= to <= v.len(),
    ensures
        r@ == v@.subrange(from as int, to as int),
{
    let mut r: Vec<char> = Vec::new();
    let mut i = from;
    while i < to
        invariant
            from <= i <= to <= v.len(),
            r@ == v@.subrange(from as int, i as int),
        decreases to - i,
    {
        r.push(v[i]);
        i += 1;
        assert(r@ =~= v@.subrange(from as int, i as int));
    }
    r
}

/// Append all characters of `w` to `v`.
pub fn append_chars(v: &mut Vec<char>, w: &Vec<char>)
    ensures
        final(v)@ == old(v)@ + w@,
{
    let mut i: usize = 0;
    while i < w.len()
        invariant
            i <= w.len(),
            v@ == old(v)@ + w@.take(i as int),
        decreases w.len() - i,
    {
        v.push(w[i]);
        i += 1;
        assert(v@ =~= old(v)@ + w@.take(i as int));
    }
    assert(w@.take(i as int) =~= w@);
}

/// Number of leading whitespace characters, computed.
pub fn count_lead_ws(v: &Vec<char>) -> (n: usize)
    ensures
        n == lead_ws(v@),
{
    proof { lemma_lead_ws_bound(v@); }
    assert(v@.skip(0) =~= v@);
    let mut i: usize = 0;
    while i < v.len() && char_is_ws(v[i])
        invariant
            i <= v.len(),
            i <= lead_ws(v@),
            lead_ws(v@) <= v.len(),
            lead_ws(v@) == i + lead_ws(v@.skip(i as int)),
        decreases v.len() - i,
    {
        assert(v@.skip(i as int).drop_first() =~= v@.skip(i + 1));
        i += 1;
    }
    i
}

/// Number of trailing whitespace characters, computed.
pub fn count_trail_ws(v: &Vec<char>) -> (n: usize)
    ensures
        n == trail_ws(v@),
{
    proof { lemma_trail_ws_bound(v@); }
    assert(v@.take(v@.len() as int) =~= v@);
    let mut i: usize = 0;
    while i < v.len() && char_is_ws(v[v.len() - 1 - i])
        invariant
            i <= v.len(),
            trail_ws(v@) <= v.len(),
            trail_ws(v@) == i + trail_ws(v@.take(v.len() - i)),
        decreases v.len() - i,
    {
        assert(v@.take(v.len() - i).drop_last() =~= v@.take(v.len() - (i + 1)));
        i += 1;
    }
    i
}

/// `str::trim_start` on characters.
pub fn trim_start_vec(v: &Vec<char>) -> (r: Vec<char>)
    ensures
        r@ == trim_start(v@),
{
    let n = count_lead_ws(v);
    proof { lemma_lead_ws_bound(v@); }
    slice_vec(v, n, v.len())
}

/// `str::trim_end` on characters.
pub fn trim_end_vec(v: &Vec<char>) -> (r: Vec<char>)
    ensures
        r@ == trim_end(v@),
{
    let n = count_trail_ws(v);
    proof { lemma_trail_ws_bound(v@); }
    slice_vec(v, 0, v.len() - n)
}

/// `str::trim` on characters.
pub fn trim_vec(v: &Vec<char>) -> (r: Vec<char>)
    ensures
        r@ == trim(v@),
{
    let t = trim_start_vec(v);
    trim_end_vec(&t)
}

/// True when every character is whitespace (`s.trim().is_empty()`).
pub fn is_blank_vec(v: &Vec<char>) -> (b: bool)
    ensures
        b == is_blank(v@),
        b == (trim(v@).len() == 0),
{
    proof { lemma_trim_empty_iff_blank(v@); lemma_lead_ws_bound(v@); }
    let n = count_lead_ws(v);
    if n == v.len() {
        assert forall|i: int| 0 <= i < v@.len() implies is_ws(#[trigger] v@[i]) by {}
    } else {
        assert(!is_ws(v@[n as int]));
    }
    n == v.len()
}


/// Splitting state of a text read from the left: the lines completed by a
/// `'\n'` so far, and the characters read since the last `'\n'`.
pub open spec fn split_state(s: Seq<char>) -> (Seq<Seq<char>>, Seq<char>)
    decreases s.len(),
{
    if s.len() == 0 {
        (seq![], seq![])
    } else {
        let (done, cur) = split_state(s.drop_last());
        if s.last() == '\n' {
            (done.push(strip_cr(cur)), seq![])
        } else {
            (done, cur.push(s.last()))
        }
    }
}

/// Drop one trailing `'\r'` (the `"\r\n"` line ending).
pub open spec fn strip_cr(l: Seq<char>) -> Seq<char> {
    if l.len() > 0 && l.last() == '\r' {
        l.drop_last()
    } else {
        l
    }
}

/// `str::lines`: lines split at `'\n'` or `"\r\n"`; a final line ending
/// adds no empty line; the empty text has no lines.
pub open spec fn lines(s: Seq<char>) -> Seq<Seq<char>> {
    let (done, cur) = split_state(s);
    if cur.len() > 0 {
        done.push(cur)
    } else {
        done
    }
}

/// Lines joined by `'\n'` (`[..].join("\n")`).
pub open spec fn join_lines(ls: Seq<Seq<char>>) -> Seq<char>
    decreases ls.len(),
{
    if ls.len() == 0 {
        seq![]
    } else if ls.len() == 1 {
        ls[0]
    } else {
        join_lines(ls.drop_last()) + seq!['\n'] + ls.last()
    }
}

/// `str::lines` on characters.
pub fn split_lines(v: &Vec<char>) -> (r: Vec<Vec<char>>)
    ensures
        r@.len() == lines(v@).len(),
        forall|i: int| 0 <= i < r@.len() ==> (#[trigger] r@[i])@ == lines(v@)[i],
{
    let mut done: Vec<Vec<char>> = Vec::new();
    let mut cur: Vec<char> = Vec::new();
    let mut i: usize = 0;
    while i < v.len()
        invariant
            i <= v.len(),
            done@.len() == split_state(v@.take(i as int)).0.len(),
            forall|k: int| 0 <= k < done@.len() ==> (#[trigger] done@[k])@ == split_state(v@.take(i as int)).0[k],
            cur@ == split_state(v@.take(i as int)).1,
        decreases v.len() - i,
    {
        assert(v@.take(i + 1).drop_last() =~= v@.take(i as int));
        if v[i] == '\n' {
            let mut line = cur;
            if line.len() > 0 && line[line.len() - 1] == '\r' {
                line.pop();
                assert(line@ =~= strip_cr(cur@));
            }
            done.push(line);
            cur = Vec::new();
        } else {
            cur.push(v[i]);
        }
        i += 1;
    }
    assert(v@.take(i as int) =~= v@);
    if cur.len() > 0 {
        done.push(cur);
    }
    done
}

/// The line ends with a carriage return.
pub open spec fn ends_cr(l: Seq<char>) -> bool {
    l.len() > 0 && l.last() == '\r'
}

/// Lines that `str::lines` reads back from their join: none holds a
/// `'\n'`, none but the last ends with `'\r'`, and the last is not empty.
pub open spec fn rejoinable(ls: Seq<Seq<char>>) -> bool {
    &&& forall|i: int| 0 <= i < ls.len() ==> !(#[trigger] ls[i]).contains('\n')
    &&& forall|i: int| 0 <= i < ls.len() - 1 ==> !ends_cr(#[trigger] ls[i])
    &&& ls.len() == 0 || ls.last().len() > 0
}

proof fn lemma_split_append(s: Seq<char>, t: Seq<char>)
    requires
        !t.contains('\n'),
    ensures
        split_state(s + t) == (split_state(s).0, split_state(s).1 + t),
    decreases t.len(),
{
    if t.len() == 0 {
        assert(s + t =~= s);
        assert(split_state(s).1 + t =~= split_state(s).1);
    } else {
        let u = t.drop_last();
        assert(!u.contains('\n')) by {
            if u.contains('\n') {
                let i = choose|i: int| 0 <= i < u.len() && u[i] == '\n';
                assert(t[i] == '\n');
            }
        }
        lemma_split_append(s, u);
        assert((s + t).drop_last() =~= s + u);
        assert(t.last() == t[t.len() - 1]);
        assert((s + t).last() == t.last());
        assert(split_state(s).1 + u.push(t.last()) =~= split_state(s).1 + t);
        assert(u.push(t.last()) =~= t);
    }
}

proof fn lemma_split_join(ls: Seq<Seq<char>>)
    requires
        ls.len() > 0,
        forall|i: int| 0 <= i < ls.len() ==> !(#[trigger] ls[i]).contains('\n'),
        forall|i: int| 0 <= i < ls.len() - 1 ==> !ends_cr(#[trigger] ls[i]),
    ensures
        split_state(join_lines(ls)) == (ls.drop_last(), ls.last()),
    decreases ls.len(),
{
    if ls.len() == 1 {
        assert(ls[0] == ls[0]);
        lemma_split_append(seq![], ls[0]);
        assert(seq![] + ls[0] =~= ls[0]);
        assert(ls.drop_last() =~= Seq::<Seq<char>>::empty());
    } else {
        let d = ls.drop_last();
        assert forall|i: int| 0 <= i < d.len() implies !(#[trigger] d[i]).contains('\n') by {
            assert(d[i] == ls[i]);
        }
        assert forall|i: int| 0 <= i < d.len() - 1 implies !ends_cr(#[trigger] d[i]) by {
            assert(d[i] == ls[i]);
        }
        lemma_split_join(d);
        let j = join_lines(d) + seq!['\n'];
        assert(j.drop_last() =~= join_lines(d));
        assert(d.last() == ls[ls.len() - 2]);
        assert(!ends_cr(ls[ls.len() - 2]));
        assert(strip_cr(d.last()) == d.last());
        assert(d.drop_last().push(d.last()) =~= d);
        assert(ls.last() == ls[ls.len() - 1]);
        lemma_split_append(j, ls.last());
        assert(seq![] + ls.last() =~= ls.last());
    }
}

/// Reading back the join of lines by `'\n'` gives the lines, when no line
/// holds a `'\n'`, none but the last ends with `'\r'`, and the last is not
/// empty.
pub proof fn law_lines_of_join(ls: Seq<Seq<char>>)
    requires
        rejoinable(ls),
    ensures
        lines(join_lines(ls)) == ls,
{
    if ls.len() > 0 {
        lemma_split_join(ls);
        assert(ls.drop_last().push(ls.last()) =~= ls);
    } else {
        assert(join_lines(ls) =~= Seq::<char>::empty());
    }
}

proof fn lemma_split_state_no_newline(s: Seq<char>)
    ensures
        !split_state(s).1.contains('\n'),
        forall|i: int| 0 <= i < split_state(s).0.len() ==> !(#[trigger] split_state(s).0[i]).contains('\n'),
    decreases s.len(),
{
    if s.len() > 0 {
        lemma_split_state_no_newline(s.drop_last());
        let (done, cur) = split_state(s.drop_last());
        if s.last() == '\n' {
            let c = strip_cr(cur);
            assert(!c.contains('\n')) by {
                if c.contains('\n') {
                    let i = choose|i: int| 0 <= i < c.len() && c[i] == '\n';
                    assert(cur[i] == '\n');
                }
            }
            assert forall|i: int| 0 <= i < done.push(c).len() implies !(#[trigger] done.push(c)[i]).contains('\n') by {
                if i < done.len() {
                    assert(done.push(c)[i] == done[i]);
                }
            }
            assert(!Seq::<char>::empty().contains('\n'));
        } else {
            let c = cur.push(s.last());
            assert(!c.contains('\n')) by {
                if c.contains('\n') {
                    let i = choose|i: int| 0 <= i < c.len() && c[i] == '\n';
                    if i < cur.len() {
                        assert(cur[i] == '\n');
                    }
                }
            }
        }
    }
}

/// No line of a text holds a `'\n'`.
pub proof fn lemma_lines_no_newline(s: Seq<char>)
    ensures
        forall|i: int| 0 <= i < lines(s).len() ==> !(#[trigger] lines(s)[i]).contains('\n'),
{
    lemma_split_state_no_newline(s);
    let (done, cur) = split_state(s);
    if cur.len() > 0 {
        assert forall|i: int| 0 <= i < lines(s).len() implies !(#[trigger] lines(s)[i]).contains('\n') by {
            if i < done.len() {
                assert(lines(s)[i] == done[i]);
            }
        }
    }
}

/// Join lines with `'\n'`.
pub fn join_lines_vec(ls: &Vec<Vec<char>>) -> (r: Vec<char>)
    ensures
        r@ == join_lines(ls@.map_values(|l: Vec<char>| l@)),
{
    let ghost views = ls@.map_values(|l: Vec<char>| l@);
    let mut r: Vec<char> = Vec::new();
    let mut i: usize = 0;
    while i < ls.len()
        invariant
            i <= ls.len(),
            views == ls@.map_values(|l: Vec<char>| l@),
            r@ == join_lines(views.take(i as int)),
        decreases ls.len() - i,
    {
        assert(views.take(i + 1).drop_last() =~= views.take(i as int));
        if i > 0 {
            r.push('\n');
        }
        append_chars(&mut r, &ls[i]);
        i += 1;
        assert(views.take(i as int).last() == ls@[i - 1]@);
    }
    assert(views.take(i as int) =~= views);
    r
}

/// `pat` occurs in `s` at index `i`.
pub open spec fn occurs_at(s: Seq<char>, pat: Seq<char>, i: int) -> bool {
    0 <= i && i + pat.len() <= s.len() && s.subrange(i, i + pat.len()) == pat
}

/// `str::contains` with a pattern text.
pub open spec fn contains_seq(s: Seq<char>, pat: Seq<char>) -> bool {
    exists|i: int| occurs_at(s, pat, i)
}

/// `str::starts_with` with a pattern text.
pub open spec fn starts_with(s: Seq<char>, pat: Seq<char>) -> bool {
    pat.len() <= s.len() && s.take(pat.len() as int) == pat
}

/// `str::ends_with` with a pattern text.
pub open spec fn ends_with(s: Seq<char>, pat: Seq<char>) -> bool {
    pat.len() <= s.len() && s.skip(s.len() - pat.len()) == pat
}

/// Test whether `pat` occurs in `s` at index `i`.
pub fn occurs_at_vec(s: &Vec<char>, pat: &Vec<char>, i: usize) -> (b: bool)
    ensures
        b == occurs_at(s@, pat@, i as int),
{
    if i > s.len() || pat.len() > s.len() - i {
        return false;
    }
    let mut k: usize = 0;
    while k < pat.len()
        invariant
            i + pat.len() <= s.len(),
            k <= pat.len(),
            forall|j: int| 0 <= j < k ==> s@[i + j] == pat@[j],
        decreases pat.len() - k,
    {
        if s[i + k] != pat[k] {
            assert(s@.subrange(i as int, i + pat.len())[k as int] != pat@[k as int]);
            return false;
        }
        k += 1;
    }
    assert(s@.subrange(i as int, i + pat.len()) =~= pat@);
    true
}

/// Index of the first occurrence of `pat` in `s` at or after `from`.
pub fn find_from(s: &Vec<char>, pat: &Vec<char>, from: usize) -> (r: Option<usize>)
    ensures
        match r {
            Some(i) => from <= i && occurs_at(s@, pat@, i as int) && forall|j: int|
                from <= j < i ==> !occurs_at(s@, pat@, j),
            None => forall|j: int| from <= j ==> !occurs_at(s@, pat@, j),
        },
{
    if from > s.len() {
        return None;
    }
    let mut i = from;
    while i < s.len()
        invariant
            from <= i <= s.len(),
            forall|j: int| from <= j < i ==> !occurs_at(s@, pat@, j),
        decreases s.len() - i,
    {
        if occurs_at_vec(s, pat, i) {
            return Some(i);
        }
        i += 1;
    }
    if occurs_at_vec(s, pat, i) {
        return Some(i);
    }
    None
}

/// `str::contains` on characters.
pub fn contains_vec(s: &Vec<char>, pat: &Vec<char>) -> (b: bool)
    ensures
        b == contains_seq(s@, pat@),
{
    match find_from(s, pat, 0) {
        Some(i) => true,
        None => false,
    }
}

/// `str::starts_with` on characters.
pub fn starts_with_vec(s: &Vec<char>, pat: &Vec<char>) -> (b: bool)
    ensures
        b == starts_with(s@, pat@),
{
    let b = occurs_at_vec(s, pat, 0);
    proof {
        if pat@.len() <= s@.len() {
            assert(s@.subrange(0, pat@.len() as int) =~= s@.take(pat@.len() as int));
        }
    }
    b
}

/// `str::ends_with` on characters.
pub fn ends_with_vec(s: &Vec<char>, pat: &Vec<char>) -> (b: bool)
    ensures
        b == ends_with(s@, pat@),
{
    if pat.len() > s.len() {
        return false;
    }
    let b = occurs_at_vec(s, pat, s.len() - pat.len());
    assert(s@.subrange(s@.len() - pat@.len(), s@.len() as int) =~= s@.skip(s@.len() - pat@.len()));
    b
}

/// Number of non-overlapping occurrences of `pat` found from the left
/// (`str::matches(..).count()`), for a non-empty pattern.
pub open spec fn count_matches(s: Seq<char>, pat: Seq<char>) -> nat
    decreases s.len(),
{
    if pat.len() == 0 || s.len() < pat.len() {
        0
    } else if s.take(pat.len() as int) == pat {
        1 + count_matches(s.skip(pat.len() as int), pat)
    } else {
        count_matches(s.drop_first(), pat)
    }
}

/// `str::matches(pat).count()` on characters, for a non-empty pattern.
pub fn count_matches_vec(s: &Vec<char>, pat: &Vec<char>) -> (n: usize)
    requires
        pat.len() > 0,
    ensures
        n == count_matches(s@, pat@),
{
    let mut i: usize = 0;
    let mut n: usize = 0;
    assert(s@.skip(0) =~= s@);
    while i < s.len()
        invariant
            pat.len() > 0,
            i <= s.len(),
            n <= i,
            n + count_matches(s@.skip(i as int), pat@) == count_matches(s@, pat@),
        decreases s.len() - i,
    {
        let ghost rest = s@.skip(i as int);
        if pat.len() > s.len() - i {
            assert(count_matches(rest, pat@) == 0);
            i = s.len();
            assert(count_matches(s@.skip(i as int), pat@) == 0);
        } else
        if occurs_at_vec(s, pat, i) {
            assert(rest.take(pat.len() as int) =~= s@.subrange(i as int, i + pat.len()));
            assert(rest.skip(pat.len() as int) =~= s@.skip(i + pat.len()));
            n += 1;
            i += pat.len();
        } else {
            assert(rest.take(pat.len() as int) =~= s@.subrange(i as int, i + pat.len()));
            assert(rest.drop_first() =~= s@.skip(i + 1));
            i += 1;
        }
    }
    assert(count_matches(s@.skip(i as int), pat@) == 0);
    n
}


/// Number of bytes of a character in UTF-8.
pub open spec fn utf8_width(c: char) -> nat {
    if (c as u32) < 0x80 {
        1
    } else if (c as u32) < 0x800 {
        2
    } else if (c as u32) < 0x10000 {
        3
    } else {
        4
    }
}

/// Number of bytes of a text in UTF-8 (`str::len`).
pub open spec fn byte_len(s: Seq<char>) -> nat
    decreases s.len(),
{
    if s.len() == 0 {
        0
    } else {
        byte_len(s.drop_last()) + utf8_width(s.last())
    }
}

/// Number of bytes of a character in UTF-8 (`char::len_utf8`).
pub fn char_width(c: char) -> (n: usize)
    ensures
        n == utf8_width(c),
{
    let v = c as u32;
    if v < 0x80 {
        1
    } else if v < 0x800 {
        2
    } else if v < 0x10000 {
        3
    } else {
        4
    }
}

pub proof fn lemma_byte_len_bounds(s: Seq<char>)
    ensures
        s.len() <= byte_len(s) <= 4 * s.len(),
    decreases s.len(),
{
    if s.len() > 0 {
        lemma_byte_len_bounds(s.drop_last());
    }
}

/// Number of bytes of a text in UTF-8, computed (`str::len`).
pub fn byte_len_vec(v: &Vec<char>) -> (n: usize)
    requires
        v.len() <= usize::MAX / 4,
    ensures
        n == byte_len(v@),
{
    let mut n: usize = 0;
    let mut i: usize = 0;
    while i < v.len()
        invariant
            i <= v.len() <= usize::MAX / 4,
            n == byte_len(v@.take(i as int)),
        decreases v.len() - i,
    {
        proof {
            assert(v@.take(i + 1).drop_last() =~= v@.take(i as int));
            lemma_byte_len_bounds(v@.take(i as int));
        }
        n = n + char_width(v[i]);
        i += 1;
    }
    assert(v@.take(i as int) =~= v@);
    n
}

/// The two character vectors are equal.
pub fn same_chars(a: &Vec<char>, b: &Vec<char>) -> (r: bool)
    ensures
        r == (a@ == b@),
{
    if a.len() != b.len() {
        return false;
    }
    let mut i: usize = 0;
    while i < a.len()
        invariant
            i <= a@.len(),
            a@.len() == b@.len(),
            forall|k: int| 0 <= k < i ==> a@[k] == b@[k],
        decreases a@.len() - i,
    {
        if a[i] != b[i] {
            return false;
        }
        i += 1;
    }
    assert(a@ =~= b@);
    true
}

/// The two texts are equal.
pub fn same_text(a: &str, b: &str) -> (r: bool)
    ensures
        r == (a@ == b@),
{
    same_chars(&chars_of(a), &chars_of(b))
}

} // verus!
