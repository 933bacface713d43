use crate::bitmap::bitmap_set;
use crate::chars::string_of;
use crate::match_distance::MatchDistance;
use roaring::RoaringBitmap;
use vstd::prelude::*;

verus! {

/// What a match says, as plain values.
pub ghost struct MatchModel {
    pub distance: u8,
    pub word: Seq<char>,
    pub docs: Set<u32>,
}

/// A word-table row that a query word matched, with the distance of the match.
#[derive(Clone, Copy)]
pub struct MatchEntry<'a> {
    pub distance: MatchDistance,
    pub docs: &'a RoaringBitmap,
    pub word: &'a Vec<char>,
}

impl<'a> View for MatchEntry<'a> {
    type V = MatchModel;

    open spec fn view(&self) -> MatchModel {
        MatchModel { distance: self.distance.0, word: self.word@, docs: bitmap_set(self.docs) }
    }
}

impl<'a> MatchEntry<'a> {
    /// The matched word, as it is stored in the index.
    pub fn word_string(&self) -> (r: String)
        ensures
            r@ == self@.word,
    {
        string_of(self.word)
    }
}

/// What a list of matches says, entry by entry.
pub open spec fn entries_view(s: Seq<MatchEntry>) -> Seq<MatchModel> {
    s.map_values(|e: MatchEntry| e@)
}

} // verus!
