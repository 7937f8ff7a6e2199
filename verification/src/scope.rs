//! How much of the transform space is searched.

use vstd::prelude::*;

verus! {

/// Encoding effort.
#[derive(Clone, Copy, Debug, PartialEq, Eq, Structural)]
pub enum Speed {
    Fastest,
    Fast,
    Slow,
}

/// How much of the transform space the chooser explores.
#[derive(Clone, Copy, Debug, PartialEq, Eq, Structural)]
pub enum SearchScope {
    /// Square merges only.
    Squares,
    /// Rectangles and the transforms below 8x8 too.
    Full,
}

impl SearchScope {
    /// Only the slow effort explores everything.
    pub fn for_speed(speed: Speed) -> (r: Self)
        ensures
            r == (if speed == Speed::Slow {
                SearchScope::Full
            } else {
                SearchScope::Squares
            }),
    {
        match speed {
            Speed::Fastest | Speed::Fast => SearchScope::Squares,
            Speed::Slow => SearchScope::Full,
        }
    }

    /// Whether rectangles are candidates.
    pub fn rectangles(self) -> (r: bool)
        ensures
            r == (self == SearchScope::Full),
    {
        self == SearchScope::Full
    }
}

/// Switches of the selector.
#[derive(Clone, Copy, Debug, PartialEq, Eq, Structural)]
pub struct SelectorPolicy {
    /// Every block picks its transform below 8x8 before merges compete.
    pub leaf_first: bool,
    /// Costs without the family biases are handed to the next level.
    pub raw_propagation: bool,
    /// Shortlisted merges compete again after the reconstruction rerank.
    pub merge_upgrade: bool,
}

impl Default for SelectorPolicy {
    fn default() -> (r: Self)
        ensures
            r.leaf_first,
            !r.raw_propagation,
            r.merge_upgrade,
    {
        SelectorPolicy { leaf_first: true, raw_propagation: false, merge_upgrade: true }
    }
}

} // verus!
