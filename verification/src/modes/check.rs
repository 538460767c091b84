//! Check mode: validate without modifying (used with --check flag).
//!
//! Check mode processes content the same way as diagram mode but doesn't
//! write changes; the caller compares input and output to decide whether
//! fixes are needed.

use vstd::prelude::*;

use crate::config::Config;
use crate::modes::diagram::{diagram_mode_spec, process_diagram_mode};

verus! {

/// Check mode: validate without modifying (used with --check flag).
pub fn process_check_mode(content: &str) -> (r: String)
    ensures
        r@ == diagram_mode_spec(content@),
{
    let default_config = Config::default();
    process_diagram_mode(content, &default_config)
}

} // verus!
