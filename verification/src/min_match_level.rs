use vstd::prelude::*;

verus! {

/// The loosest kind of match that a query may still use.
#[derive(Clone, Copy, Debug, PartialEq, Eq, Structural)]
pub enum MinMatchLevel {
    /// Fuzzy words become infix words.
    Contains,
    /// Every word must be matched as it is.
    Equal,
    /// Words keep their operators.
    Fuzzy,
}

} // verus!
