use uuid::Uuid;
use vstd::prelude::*;

verus! {

#[verifier::external_type_specification]
#[verifier::external_body]
pub struct ExUuid(Uuid);

/// The identifier of an attribute, for callers that name their attributes by UUID.
#[derive(Clone, Copy, PartialEq, Eq, Hash)]
pub struct AttrId(pub Uuid);

impl AttrId {
    /// The identifier that holds `id`.
    pub fn new(id: Uuid) -> (r: Self)
        ensures
            r.0 == id,
    {
        AttrId(id)
    }
}

impl From<Uuid> for AttrId {
    fn from(id: Uuid) -> (r: Self) {
        AttrId(id)
    }
}

impl vstd::std_specs::convert::FromSpecImpl<Uuid> for AttrId {
    open spec fn obeys_from_spec() -> bool {
        true
    }

    open spec fn from_spec(id: Uuid) -> Self {
        AttrId(id)
    }
}

} // verus!
