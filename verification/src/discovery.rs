//! File discovery rules: which extensions are wanted, and which directory
//! entries a walk passes over.

use vstd::prelude::*;

use crate::tables::{split_char, split_on, split_upto, sv, vv};
use crate::text::{chars_of, is_blank, is_ws, same_chars, string_of, trim, trim_start, trim_vec};

verus! {

/// Why a list of extensions was refused.
#[derive(Debug, Clone, Copy, PartialEq, Eq, Structural)]
pub enum ExtensionsError {
    /// The string is empty or only whitespace.
    Empty,
    /// No extension is left once empty pieces are dropped.
    NoValidExtensions,
}

impl ExtensionsError {
    /// The error message.
    pub fn message(&self) -> (r: &'static str)
        ensures
            r@ == (match self {
                ExtensionsError::Empty => "extensions string is empty"@,
                ExtensionsError::NoValidExtensions => "no valid extensions found"@,
            }),
    {
        match self {
            ExtensionsError::Empty => "extensions string is empty",
            ExtensionsError::NoValidExtensions => "no valid extensions found",
        }
    }
}

/// An extension with a leading dot.
pub open spec fn dotted(e: Seq<char>) -> Seq<char> {
    if e.len() > 0 && e[0] == '.' {
        e
    } else {
        seq!['.'] + e
    }
}

/// The pieces, trimmed, the empty ones dropped, each with a leading dot.
pub open spec fn ext_list(parts: Seq<Seq<char>>) -> Seq<Seq<char>>
    decreases parts.len(),
{
    if parts.len() == 0 {
        Seq::empty()
    } else {
        let rest = ext_list(parts.drop_last());
        let t = trim(parts.last());
        if t.len() == 0 {
            rest
        } else {
            rest.push(dotted(t))
        }
    }
}

/// The extensions of a comma-separated list.
pub open spec fn parse_extensions_spec(s: Seq<char>) -> Result<Seq<Seq<char>>, ExtensionsError> {
    let t = trim(s);
    if t.len() == 0 {
        Err(ExtensionsError::Empty)
    } else {
        let l = ext_list(split_on(t, ','));
        if l.len() == 0 {
            Err(ExtensionsError::NoValidExtensions)
        } else {
            Ok(l)
        }
    }
}

/// Every character is whitespace or a comma.
pub open spec fn only_ws_and_commas(s: Seq<char>) -> bool {
    forall|i: int| 0 <= i < s.len() ==> is_ws(#[trigger] s[i]) || s[i] == ','
}

proof fn lemma_ext_list_empty(parts: Seq<Seq<char>>)
    ensures
        (ext_list(parts).len() == 0) == (forall|j: int| 0 <= j < parts.len() ==> is_blank(#[trigger] parts[j])),
    decreases parts.len(),
{
    if parts.len() > 0 {
        let d = parts.drop_last();
        lemma_ext_list_empty(d);
        crate::text::lemma_trim_empty_iff_blank(parts.last());
        assert forall|j: int| 0 <= j < d.len() implies #[trigger] d[j] == parts[j] by {}
        if ext_list(parts).len() == 0 {
            assert forall|j: int| 0 <= j < parts.len() implies is_blank(#[trigger] parts[j]) by {
                if j < d.len() {
                    assert(d[j] == parts[j]);
                }
            }
        } else if forall|j: int| 0 <= j < parts.len() ==> is_blank(#[trigger] parts[j]) {
            assert(is_blank(parts[parts.len() - 1]));
            assert forall|j: int| 0 <= j < d.len() implies is_blank(#[trigger] d[j]) by {
                assert(d[j] == parts[j]);
            }
        }
    }
}

proof fn lemma_split_blank(t: Seq<char>, k: int)
    requires
        0 <= k <= t.len(),
    ensures
        ({
            let (done, cur) = split_upto(t, ',', k);
            ((forall|j: int| 0 <= j < done.len() ==> is_blank(#[trigger] done[j])) && is_blank(cur))
                == only_ws_and_commas(t.take(k))
        }),
    decreases k,
{
    if k > 0 {
        lemma_split_blank(t, k - 1);
        let (done, cur) = split_upto(t, ',', k - 1);
        let p = t.take(k - 1);
        let q = t.take(k);
        assert forall|i: int| 0 <= i < k - 1 implies #[trigger] q[i] == p[i] by {}
        assert(q[k - 1] == t[k - 1]);
        if t[k - 1] == ',' {
            let d2 = done.push(cur);
            assert(is_blank(Seq::<char>::empty()));
            if only_ws_and_commas(q) {
                assert(only_ws_and_commas(p));
                assert forall|j: int| 0 <= j < d2.len() implies is_blank(#[trigger] d2[j]) by {
                    if j < done.len() {
                        assert(d2[j] == done[j]);
                    }
                }
            }
            if (forall|j: int| 0 <= j < d2.len() ==> is_blank(#[trigger] d2[j])) {
                assert(is_blank(d2[done.len() as int]));
                assert forall|j: int| 0 <= j < done.len() implies is_blank(#[trigger] done[j]) by {
                    assert(d2[j] == done[j]);
                }
            }
        } else {
            let c2 = cur.push(t[k - 1]);
            if only_ws_and_commas(q) {
                assert(only_ws_and_commas(p));
                assert(is_ws(q[k - 1]));
                assert forall|i: int| 0 <= i < c2.len() implies is_ws(#[trigger] c2[i]) by {
                    if i < cur.len() {
                        assert(c2[i] == cur[i]);
                    }
                }
            }
            if is_blank(c2) && (forall|j: int| 0 <= j < done.len() ==> is_blank(#[trigger] done[j])) {
                assert(is_blank(cur)) by {
                    assert forall|i: int| 0 <= i < cur.len() implies is_ws(#[trigger] cur[i]) by {
                        assert(c2[i] == cur[i]);
                    }
                }
                assert(is_ws(c2[cur.len() as int]));
            }
        }
    }
}

/// A list of extensions is refused exactly when it holds nothing but
/// whitespace and commas (the empty text included); otherwise it gives the
/// non-empty pieces, each with a leading dot.
pub proof fn law_extensions_refused(s: Seq<char>)
    ensures
        (parse_extensions_spec(s) is Err) == only_ws_and_commas(s),
{
    let t = trim(s);
    crate::text::lemma_lead_ws_bound(s);
    let u = trim_start(s);
    crate::text::lemma_trail_ws_bound(u);
    let lw = crate::text::lead_ws(s) as int;
    let tw = crate::text::trail_ws(u) as int;
    assert(t =~= s.subrange(lw, s.len() - tw));
    crate::text::lemma_trim_empty_iff_blank(s);
    lemma_split_blank(t, t.len() as int);
    assert(t.take(t.len() as int) =~= t);
    let parts = split_on(t, ',');
    lemma_ext_list_empty(parts);
    let (done, cur) = split_upto(t, ',', t.len() as int);
    assert(parts == done.push(cur));
    assert((forall|j: int| 0 <= j < parts.len() ==> is_blank(#[trigger] parts[j])) == ((forall|j: int| 0 <= j
        < done.len() ==> is_blank(#[trigger] done[j])) && is_blank(cur))) by {
        if forall|j: int| 0 <= j < parts.len() ==> is_blank(#[trigger] parts[j]) {
            assert(is_blank(parts[done.len() as int]));
            assert forall|j: int| 0 <= j < done.len() implies is_blank(#[trigger] done[j]) by {
                assert(parts[j] == done[j]);
            }
        }
        if (forall|j: int| 0 <= j < done.len() ==> is_blank(#[trigger] done[j])) && is_blank(cur) {
            assert forall|j: int| 0 <= j < parts.len() implies is_blank(#[trigger] parts[j]) by {
                if j < done.len() {
                    assert(parts[j] == done[j]);
                }
            }
        }
    }
    // The whole text and its trimmed part agree on the question.
    assert(only_ws_and_commas(s) == only_ws_and_commas(t)) by {
        if only_ws_and_commas(t) {
            assert forall|i: int| 0 <= i < s.len() implies is_ws(#[trigger] s[i]) || s[i] == ',' by {
                if lw <= i < s.len() - tw {
                    assert(s[i] == t[i - lw]);
                } else if i >= s.len() - tw {
                    assert(u[i - lw] == s[i]);
                }
            }
        }
        if only_ws_and_commas(s) {
            assert forall|i: int| 0 <= i < t.len() implies is_ws(#[trigger] t[i]) || t[i] == ',' by {
                assert(t[i] == s[i + lw]);
            }
        }
    }
    if t.len() == 0 {
        assert(is_blank(s));
        assert forall|i: int| 0 <= i < s.len() implies is_ws(#[trigger] s[i]) || s[i] == ',' by {}
    }
}

/// Parse a comma-separated string of extensions.
///
/// Normalizes extensions to include a leading dot.
/// Handles both ".md" and "md" format.
pub fn parse_extensions(s: &str) -> (r: Result<Vec<String>, ExtensionsError>)
    ensures
        match r {
            Ok(v) => parse_extensions_spec(s@) == Ok::<Seq<Seq<char>>, ExtensionsError>(sv(v@)),
            Err(e) => parse_extensions_spec(s@) == Err::<Seq<Seq<char>>, ExtensionsError>(e),
        },
{
    let trimmed = trim_vec(&chars_of(s));
    if trimmed.len() == 0 {
        return Err(ExtensionsError::Empty);
    }
    let parts = split_char(&trimmed, ',');
    let ghost pv = vv(parts@);
    let mut extensions: Vec<String> = Vec::new();
    let mut k: usize = 0;
    while k < parts.len()
        invariant
            k <= parts@.len(),
            pv == vv(parts@),
            sv(extensions@) == ext_list(pv.take(k as int)),
        decreases parts@.len() - k,
    {
        assert(pv.take(k + 1).drop_last() =~= pv.take(k as int));
        assert(pv.take(k + 1).last() == parts@[k as int]@);
        let t = trim_vec(&parts[k]);
        if t.len() > 0 {
            let ghost b = sv(extensions@);
            let e = if t[0] == '.' {
                string_of(&t)
            } else {
                let mut d: Vec<char> = Vec::new();
                d.push('.');
                crate::text::append_chars(&mut d, &t);
                assert(d@ =~= seq!['.'] + t@);
                string_of(&d)
            };
            extensions.push(e);
            assert(sv(extensions@) =~= b.push(e@));
        }
        k += 1;
    }
    assert(pv.take(k as int) =~= pv);
    if extensions.len() == 0 {
        return Err(ExtensionsError::NoValidExtensions);
    }
    Ok(extensions)
}

/// File discovery configuration: the extensions that are wanted.
pub struct FileDiscovery {
    extensions: Vec<String>,
}

impl FileDiscovery {
    /// The wanted extensions.
    pub closed spec fn extensions_view(&self) -> Seq<Seq<char>> {
        sv(self.extensions@)
    }

    /// Create a new file discovery with given extensions.
    pub fn new(extensions: Vec<String>) -> (r: Self)
        ensures
            r.extensions_view() == sv(extensions@),
    {
        FileDiscovery { extensions }
    }

    /// A file with this extension (as the path gives it, if it has one that
    /// is valid UTF-8) is wanted: the extension, with a leading dot, is one
    /// of the configured ones.
    pub fn matches_extension(&self, ext: Option<&str>) -> (b: bool)
        ensures
            b == (match ext {
                Some(e) => self.extensions_view().contains(dotted(e@)),
                None => false,
            }),
    {
        match ext {
            None => false,
            Some(e) => {
                let ev = chars_of(e);
                let with_dot = if ev.len() > 0 && ev[0] == '.' {
                    ev
                } else {
                    let mut d: Vec<char> = Vec::new();
                    d.push('.');
                    crate::text::append_chars(&mut d, &ev);
                    assert(d@ =~= seq!['.'] + ev@);
                    d
                };
                let ghost xs = self.extensions_view();
                let mut k: usize = 0;
                while k < self.extensions.len()
                    invariant
                        k <= self.extensions@.len(),
                        xs == self.extensions_view(),
                        xs == sv(self.extensions@),
                        with_dot@ == dotted(e@),
                        ext == Some(e),
                        forall|q: int| 0 <= q < k ==> xs[q] != with_dot@,
                    decreases self.extensions@.len() - k,
                {
                    let x = chars_of(self.extensions[k].as_str());
                    if same_chars(&x, &with_dot) {
                        assert(xs[k as int] == with_dot@);
                        assert(xs.contains(with_dot@));
                        return true;
                    }
                    k += 1;
                }
                proof {
                    if xs.contains(with_dot@) {
                        let q = choose|q: int| 0 <= q < xs.len() && xs[q] == with_dot@;
                        assert(xs[q] != with_dot@);
                    }
                }
                false
            },
        }
    }
}

/// A directory entry that a walk passes over: a hidden name (starting
/// with `.`), or a common build, dependency or version-control directory.
pub open spec fn skipped_name(name: Seq<char>) -> bool {
    ||| (name.len() > 0 && name[0] == '.')
    ||| name == "target"@
    ||| name == "node_modules"@
    ||| name == "vendor"@
    ||| name == "dist"@
    ||| name == "build"@
    ||| name == ".git"@
    ||| name == ".svn"@
    ||| name == ".hg"@
}

/// Whether a walk passes over the entry with this name.
pub fn is_skipped_name(name: &str) -> (b: bool)
    ensures
        b == skipped_name(name@),
{
    let n = chars_of(name);
    if n.len() > 0 && n[0] == '.' {
        return true;
    }
    same_chars(&n, &chars_of("target")) || same_chars(&n, &chars_of("node_modules"))
        || same_chars(&n, &chars_of("vendor")) || same_chars(&n, &chars_of("dist"))
        || same_chars(&n, &chars_of("build")) || same_chars(&n, &chars_of(".git"))
        || same_chars(&n, &chars_of(".svn")) || same_chars(&n, &chars_of(".hg"))
}

} // verus!
