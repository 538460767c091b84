//! Mode-specific processing implementations.

pub mod table;
pub mod safe;
pub mod diagram;
pub mod check;

use vstd::prelude::*;

use crate::cli::Mode;
use crate::config::Config;
use crate::fences::{normalize_fences, normalize_fences_spec};
use crate::modes::diagram::diagram_mode_spec;
use crate::modes::safe::safe_mode_spec;
use crate::text::{chars_of, string_of};

verus! {

/// What a mode makes of a text, after the optional fence repair.
pub open spec fn process_by_mode_spec(mode: Mode, content: Seq<char>, repair_fences: bool) -> Seq<char> {
    let c = if repair_fences {
        normalize_fences_spec(content)
    } else {
        content
    };
    match mode {
        Mode::Safe => safe_mode_spec(c),
        Mode::Diagram => diagram_mode_spec(c),
        Mode::Check => diagram_mode_spec(c),
    }
}

/// Process content according to the specified mode.
///
/// # Modes
/// - `Safe`: Only normalize Markdown tables and lists (no diagrams)
/// - `Diagram`: Detect and normalize ASCII diagrams (boxes, arrows, text)
/// - `Check`: Process as `Diagram` does; the caller compares
///
/// If `repair_fences` is true, fence normalization is applied first.
pub fn process_by_mode(mode: &Mode, content: &str, repair_fences: bool, config: &Config) -> (r: String)
    ensures
        r@ == process_by_mode_spec(*mode, content@, repair_fences),
{
    let content = if repair_fences {
        normalize_fences(content)
    } else {
        string_of(&chars_of(content))
    };
    match mode {
        Mode::Safe => safe::process_safe_mode(content.as_str()),
        Mode::Diagram => diagram::process_diagram_mode(content.as_str(), config),
        Mode::Check => check::process_check_mode(content.as_str()),
    }
}

/// Compare original and processed content to determine if fixes are needed.
///
/// Returns true if the content has been modified, false if identical.
pub fn content_needs_fixing(original: &str, processed: &str) -> (b: bool)
    ensures
        b == (original@ != processed@),
{
    let a = chars_of(original);
    let p = chars_of(processed);
    if a.len() != p.len() {
        return true;
    }
    let mut i: usize = 0;
    while i < a.len()
        invariant
            i <= a@.len(),
            a@.len() == p@.len(),
            a@ == original@,
            p@ == processed@,
            forall|k: int| 0 <= k < i ==> a@[k] == p@[k],
        decreases a@.len() - i,
    {
        if a[i] != p[i] {
            return true;
        }
        i += 1;
    }
    assert(a@ =~= p@);
    false
}

} // verus!
