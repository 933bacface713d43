use vstd::prelude::*;

verus! {

/// A document handle chosen by the caller. It stays the same for the document's whole life.
#[derive(Clone, Copy, Debug, PartialEq, Eq, Hash, Structural)]
pub struct DocId(pub u32);

impl DocId {
    /// The position of the document in an index's per-document records.
    pub fn index(self) -> (r: usize)
        ensures
            r == self.0,
    {
        self.0 as usize
    }
}

impl From<u32> for DocId {
    fn from(value: u32) -> (r: Self) {
        DocId(value)
    }
}

impl vstd::std_specs::convert::FromSpecImpl<u32> for DocId {
    open spec fn obeys_from_spec() -> bool {
        true
    }

    open spec fn from_spec(value: u32) -> Self {
        DocId(value)
    }
}

} // verus!
