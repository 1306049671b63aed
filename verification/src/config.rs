//! Configuration consumed by the scan logic.
//!
//! An [`Ignore`] value holds the two tiers of exclusion rules applied to
//! every candidate path the scanner discovers: literal path prefixes and
//! regular-expression patterns. The patterns are kept as their source
//! strings; matching goes through the `regex` crate.

use vstd::prelude::*;

verus! {

/// The exclusion rules applied to every scanned relative path.
#[derive(Debug)]
pub struct Ignore {
    /// Literal path prefixes: a path equal to one of these, or lying under
    /// it as a directory, is ignored.
    pub paths: Vec<String>,
    /// Regular-expression patterns, matched against the path's string form.
    pub regexes: Vec<String>,
}

impl Ignore {
    /// An empty rule set: nothing is ignored.
    pub fn empty() -> (r: Ignore)
        ensures
            r.paths@.len() == 0,
            r.regexes@.len() == 0,
    {
        Ignore { paths: Vec::new(), regexes: Vec::new() }
    }
}

} // verus!
