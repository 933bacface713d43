use vstd::prelude::*;

verus! {

/// How far a matched word is from the query word. Smaller is closer; 0 is the word itself.
#[derive(Clone, Copy, Debug, PartialEq, Eq, PartialOrd, Ord, Structural)]
pub struct MatchDistance(pub u8);

} // verus!
