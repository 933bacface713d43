use crate::index::Index;
use crate::index_to_query::IndexToQuery;
use vstd::prelude::*;

verus! {

/// What a query found in one index: the index, and the best match of each of its words
/// that the query matched.
pub struct IndexResults<'a> {
    pub index: &'a Index,
    pub index_to_query: IndexToQuery<'a>,
}

} // verus!
