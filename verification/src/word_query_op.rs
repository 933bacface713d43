use vstd::prelude::*;

verus! {

/// How a query word is held against an indexed word.
#[derive(Clone, Copy, Debug, PartialEq, Eq, Structural)]
pub enum WordQueryOp {
    Contains,
    Eq,
    EndsWith,
    Fuzzy,
    StartsWith,
}

} // verus!
