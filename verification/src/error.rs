//! The one way in which a merge can fail.

use vstd::prelude::*;

verus! {

/// Why two containers could not be merged.
#[derive(Clone, Copy, Debug, PartialEq, Eq, Structural)]
pub enum MergeError {
    /// The two containers were built with different fixed parameters, so no
    /// common upper bound of their states exists.
    IncompatibleConfiguration,
}

impl MergeError {
    /// What went wrong, in words.
    pub fn describe(&self) -> (r: String)
        ensures
            r@ == "the two containers were built with different fixed parameters"@,
    {
        "the two containers were built with different fixed parameters".to_string()
    }
}

} // verus!
