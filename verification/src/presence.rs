use vstd::prelude::*;

verus! {

/// What a query word asks of a document that matches it.
#[derive(Clone, Copy, Debug, PartialEq, Eq, Structural)]
pub enum Presence {
    /// A matching document is welcome.
    Optional,
    /// Only matching documents are wanted.
    Required,
    /// No matching document is wanted.
    Denied,
}

impl Default for Presence {
    fn default() -> (r: Self)
        ensures
            r == Presence::Optional,
    {
        Presence::Optional
    }
}

} // verus!
