//! The ranking of documents: tier by tier, by the closeness of the matches and then by
//! how near to each other and how much in the order of the query the matched words stand.

pub mod laws;
pub mod match_distance_score;
pub mod proximity_seq_score;

use crate::direction::Direction;
use crate::doc_id::DocId;
use crate::search_results::SearchResults;
use crate::searcher::{index_of_direction, ranking_tiers, SearcherModel};
use crate::tiers::{tiers_view, Tier, TierModel};
use match_distance_score::{MatchDistanceScore, Rec};
use proximity_seq_score::{ProximityModel, ProximitySeqScore};
use std::cmp::Ordering;
use vstd::prelude::*;

verus! {

broadcast use vstd::seq_lib::group_seq_properties;

/// How one thing ranks against another. What ranks `Less` is the better.
#[derive(Clone, Copy, Debug, PartialEq, Eq, Structural)]
pub enum Rank {
    Less,
    Equal,
    Greater,
}

/// The scores that a document earns in one tier.
pub ghost struct TierScore {
    pub match_distance: Seq<Rec>,
    pub proximity_seq: ProximityModel,
}

/// The words that document `d` holds in the attribute `a` of the direction `direction`.
pub open spec fn words_of(s: SearcherModel, direction: Direction, a: usize, d: u32) -> Seq<Seq<char>> {
    let index = index_of_direction(s, direction);
    if d < index.docs.len() && a < index.docs[d as int].len() {
        index.docs[d as int][a as int]
    } else {
        Seq::empty()
    }
}

/// The better of the score `best` and the score that the words `words` earn. An
/// attribute without words earns nothing.
pub open spec fn better_match_distance(
    best: Seq<Rec>,
    results: &SearchResults,
    direction: Direction,
    words: Seq<Seq<char>>,
) -> Seq<Rec> {
    if words.len() == 0 {
        best
    } else {
        let earned = match_distance_score::score_of(
            results.lookup(direction),
            words,
            results.query_len(direction) as int,
        );
        if match_distance_score::score_rank(best, earned) == Rank::Greater {
            earned
        } else {
            best
        }
    }
}

/// The better of the score `best` and the score that the words `words` earn. An
/// attribute without words earns nothing.
pub open spec fn better_proximity_seq(
    best: ProximityModel,
    results: &SearchResults,
    direction: Direction,
    words: Seq<Seq<char>>,
) -> ProximityModel {
    if words.len() == 0 {
        best
    } else {
        let earned = proximity_seq_score::score_of(
            results.lookup(direction),
            words,
            results.query_len(direction) as int,
        );
        if proximity_seq_score::score_rank(best, earned) == Rank::Greater {
            earned
        } else {
            best
        }
    }
}

/// The best match-distance score that document `d` earns in the first `n` of the
/// attributes `members`.
pub open spec fn best_match_distance(results: &SearchResults, d: u32, members: Seq<(Direction, usize)>, n: int) -> Seq<
    Rec,
>
    decreases n,
{
    if n <= 0 {
        Seq::empty()
    } else {
        better_match_distance(
            best_match_distance(results, d, members, n - 1),
            results,
            members[n - 1].0,
            words_of(results.spec_searcher()@, members[n - 1].0, members[n - 1].1, d),
        )
    }
}

/// The best proximity-sequence score that document `d` earns in the first `n` of the
/// attributes `members`.
pub open spec fn best_proximity_seq(results: &SearchResults, d: u32, members: Seq<(Direction, usize)>, n: int) -> ProximityModel
    decreases n,
{
    if n <= 0 {
        ProximityModel { count: 0, proximity: 0, seq: 0 }
    } else {
        better_proximity_seq(
            best_proximity_seq(results, d, members, n - 1),
            results,
            members[n - 1].0,
            words_of(results.spec_searcher()@, members[n - 1].0, members[n - 1].1, d),
        )
    }
}

/// The scores that document `d` earns in the tier of the attributes `members`: the best
/// of each kind over the attributes.
pub open spec fn tier_score(results: &SearchResults, d: u32, members: Seq<(Direction, usize)>) -> TierScore {
    TierScore {
        match_distance: best_match_distance(results, d, members, members.len() as int),
        proximity_seq: best_proximity_seq(results, d, members, members.len() as int),
    }
}

/// The scores that document `d` earns, tier after tier in ascending order of priority.
pub open spec fn doc_key(results: &SearchResults, d: u32) -> Seq<TierScore> {
    ranking_tiers(results.spec_searcher()@.attrs, results.spec_culture()).map_values(
        |t: TierModel| tier_score(results, d, t.1),
    )
}

/// How the scores `l` of one tier rank against `r`: by match distance, then by
/// proximity and sequence.
pub open spec fn tier_rank(l: TierScore, r: TierScore) -> Rank {
    let o = match_distance_score::score_rank(l.match_distance, r.match_distance);
    if o != Rank::Equal {
        o
    } else {
        proximity_seq_score::score_rank(l.proximity_seq, r.proximity_seq)
    }
}

/// How the scores `l` rank against `r` from tier `i` on: by the first tier in which the
/// two differ, and scores with fewer tiers rank behind.
pub open spec fn key_rank_from(l: Seq<TierScore>, r: Seq<TierScore>, i: int) -> Rank
    decreases l.len() - i,
{
    if i < 0 {
        Rank::Equal
    } else if i >= l.len() && i >= r.len() {
        Rank::Equal
    } else if i >= l.len() {
        Rank::Greater
    } else if i >= r.len() {
        Rank::Less
    } else if tier_rank(l[i], r[i]) != Rank::Equal {
        tier_rank(l[i], r[i])
    } else {
        key_rank_from(l, r, i + 1)
    }
}

/// How the scores `l` rank against `r`. `Less` is the better.
pub open spec fn key_rank(l: Seq<TierScore>, r: Seq<TierScore>) -> Rank {
    key_rank_from(l, r, 0)
}

/// The two scores that a side of a comparison is working on.
#[derive(Debug)]
pub struct WorkingSet {
    pub match_distance: MatchDistanceScore,
    pub proximity_seq: ProximitySeqScore,
}

impl WorkingSet {
    /// Two worst scores.
    pub fn new() -> (r: Self)
        ensures
            r.match_distance@ == Seq::<Rec>::empty(),
            r.proximity_seq@ == (ProximityModel { count: 0, proximity: 0, seq: 0 }),
    {
        WorkingSet { match_distance: MatchDistanceScore::new(), proximity_seq: ProximitySeqScore::new() }
    }

    /// Keeps the better of this side's match-distance score and the one that document
    /// `id` earns in the attribute `attr_index` of the index of `results`.
    fn match_distance(
        &mut self,
        set: &mut WorkingSet,
        id: DocId,
        direction: Direction,
        attr_index: usize,
        res: &SearchResults,
    )
        requires
            res.wf(),
        ensures
            final(self).proximity_seq == old(self).proximity_seq,
            final(self).match_distance@ == better_match_distance(
                old(self).match_distance@,
                res,
                direction,
                words_of(res.spec_searcher()@, direction, attr_index, id.0),
            ),
    {
        let results = res.direction_index_results(direction);
        if let Some(words) = results.index.get_doc_attribute_words(id, attr_index) {
            if words.len() > 0 {
                set.match_distance.update(&results.index_to_query, words);
                if self.match_distance.rank(&set.match_distance) == Rank::Greater {
                    core::mem::swap(&mut self.match_distance, &mut set.match_distance);
                }
            }
        }
    }

    /// Keeps the better of this side's proximity-sequence score and the one that
    /// document `id` earns in the attribute `attr_index` of the index of `results`.
    fn proximity_seq(
        &mut self,
        set: &mut WorkingSet,
        id: DocId,
        direction: Direction,
        attr_index: usize,
        res: &SearchResults,
    )
        requires
            res.wf(),
        ensures
            final(self).match_distance == old(self).match_distance,
            final(self).proximity_seq@ == better_proximity_seq(
                old(self).proximity_seq@,
                res,
                direction,
                words_of(res.spec_searcher()@, direction, attr_index, id.0),
            ),
    {
        let results = res.direction_index_results(direction);
        if let Some(words) = results.index.get_doc_attribute_words(id, attr_index) {
            if words.len() > 0 {
                set.proximity_seq.update(&results.index_to_query, words);
                if self.proximity_seq.rank(&set.proximity_seq) == Rank::Greater {
                    core::mem::swap(&mut self.proximity_seq, &mut set.proximity_seq);
                }
            }
        }
    }
}

/// One side of a comparison: a document of some results, with the tiers to rank it by.
pub struct Side<'a> {
    pub attrs_priorities: &'a Vec<Tier>,
    pub doc_id: DocId,
    pub results: &'a SearchResults<'a>,
}

impl<'a> Side<'a> {
    /// The side of document `doc_id` of `results`.
    pub fn new(doc_id: DocId, results: &'a SearchResults<'a>) -> (r: Self)
        requires
            results.wf(),
        ensures
            r.doc_id == doc_id,
            r.results == results,
            tiers_view(r.attrs_priorities@) == ranking_tiers(
                results.spec_searcher()@.attrs,
                results.spec_culture(),
            ),
    {
        Side { attrs_priorities: results.searcher().attrs_priorities(results.culture()), doc_id, results }
    }

    /// Leaves in `set` the best match-distance score that the document earns in the
    /// attributes `attrs`.
    fn match_distance(&self, attrs: &Vec<(Direction, usize)>, set: &mut WorkingSet, temp_set: &mut WorkingSet)
        requires
            self.results.wf(),
        ensures
            final(set).proximity_seq == old(set).proximity_seq,
            final(set).match_distance@ == best_match_distance(
                self.results,
                self.doc_id.0,
                attrs@,
                attrs@.len() as int,
            ),
    {
        set.match_distance.clear();
        let mut i: usize = 0;
        while i < attrs.len()
            invariant
                0 <= i <= attrs.len(),
                self.results.wf(),
                set.proximity_seq == old(set).proximity_seq,
                set.match_distance@ == best_match_distance(self.results, self.doc_id.0, attrs@, i as int),
            decreases attrs.len() - i,
        {
            let (direction, attr_index) = attrs[i];
            set.match_distance(temp_set, self.doc_id, direction, attr_index, self.results);
            i += 1;
        }
    }

    /// Leaves in `set` the best proximity-sequence score that the document earns in the
    /// attributes `attrs`.
    fn proximity_seq(&self, attrs: &Vec<(Direction, usize)>, set: &mut WorkingSet, temp_set: &mut WorkingSet)
        requires
            self.results.wf(),
        ensures
            final(set).match_distance == old(set).match_distance,
            final(set).proximity_seq@ == best_proximity_seq(
                self.results,
                self.doc_id.0,
                attrs@,
                attrs@.len() as int,
            ),
    {
        set.proximity_seq.clear();
        let mut i: usize = 0;
        while i < attrs.len()
            invariant
                0 <= i <= attrs.len(),
                self.results.wf(),
                set.match_distance == old(set).match_distance,
                set.proximity_seq@ == best_proximity_seq(self.results, self.doc_id.0, attrs@, i as int),
            decreases attrs.len() - i,
        {
            let (direction, attr_index) = attrs[i];
            set.proximity_seq(temp_set, self.doc_id, direction, attr_index, self.results);
            i += 1;
        }
    }
}

/// A comparer of documents, with the scores it works on.
#[derive(Debug)]
pub struct Comparer {
    left: WorkingSet,
    right: WorkingSet,
    set: WorkingSet,
}

impl Comparer {
    /// The comparer holds no score of an earlier comparison.
    pub closed spec fn is_clear(&self) -> bool {
        &&& self.left.match_distance@.len() == 0
        &&& self.right.match_distance@.len() == 0
        &&& self.set.match_distance@.len() == 0
        &&& self.left.proximity_seq@.count == 0
        &&& self.right.proximity_seq@.count == 0
        &&& self.set.proximity_seq@.count == 0
    }

    /// A comparer that has compared nothing yet. What a comparer answers does not depend
    /// on what it compared before.
    pub fn new() -> (r: Self)
        ensures
            r.is_clear(),
    {
        Comparer { left: WorkingSet::new(), right: WorkingSet::new(), set: WorkingSet::new() }
    }

    /// How document `lid` of `lres` ranks against document `rid` of `rres`: by the first
    /// tier, in ascending order of priority, in which their scores differ.
    pub fn rank(&mut self, lid: DocId, lres: &SearchResults, rid: DocId, rres: &SearchResults) -> (r: Rank)
        requires
            lres.wf(),
            rres.wf(),
        ensures
            r == key_rank(doc_key(lres, lid.0), doc_key(rres, rid.0)),
    {
        let lside = Side::new(lid, lres);
        let rside = Side::new(rid, rres);
        let ghost lkey = doc_key(lres, lid.0);
        let ghost rkey = doc_key(rres, rid.0);
        let mut i: usize = 0;
        loop
            invariant
                0 <= i <= lside.attrs_priorities@.len(),
                i <= rside.attrs_priorities@.len(),
                lres.wf(),
                rres.wf(),
                lside.results == lres,
                rside.results == rres,
                lside.doc_id == lid,
                rside.doc_id == rid,
                lkey == doc_key(lres, lid.0),
                rkey == doc_key(rres, rid.0),
                tiers_view(lside.attrs_priorities@) == ranking_tiers(
                    lres.spec_searcher()@.attrs,
                    lres.spec_culture(),
                ),
                tiers_view(rside.attrs_priorities@) == ranking_tiers(
                    rres.spec_searcher()@.attrs,
                    rres.spec_culture(),
                ),
                key_rank_from(lkey, rkey, i as int) == key_rank(lkey, rkey),
            decreases lside.attrs_priorities@.len() - i,
        {
            if i >= lside.attrs_priorities.len() {
                if i >= rside.attrs_priorities.len() {
                    return Rank::Equal;
                }
                return Rank::Greater;
            }
            if i >= rside.attrs_priorities.len() {
                return Rank::Less;
            }
            let l_attrs = &lside.attrs_priorities[i].1;
            let r_attrs = &rside.attrs_priorities[i].1;
            proof {
                assert(tiers_view(lside.attrs_priorities@)[i as int].1 == l_attrs@);
                assert(tiers_view(rside.attrs_priorities@)[i as int].1 == r_attrs@);
                assert(lkey[i as int] == tier_score(lres, lid.0, l_attrs@));
                assert(rkey[i as int] == tier_score(rres, rid.0, r_attrs@));
            }
            lside.match_distance(l_attrs, &mut self.left, &mut self.set);
            rside.match_distance(r_attrs, &mut self.right, &mut self.set);
            let o = self.left.match_distance.rank(&self.right.match_distance);
            if !(o == Rank::Equal) {
                return o;
            }
            lside.proximity_seq(l_attrs, &mut self.left, &mut self.set);
            rside.proximity_seq(r_attrs, &mut self.right, &mut self.set);
            let o = self.left.proximity_seq.rank(&self.right.proximity_seq);
            if !(o == Rank::Equal) {
                return o;
            }
            i += 1;
        }
    }

    /// Compares document `lid` of `lres` with document `rid` of `rres`. The better
    /// document is the smaller.
    pub fn compare(&mut self, lid: DocId, lres: &SearchResults, rid: DocId, rres: &SearchResults) -> (r: Ordering)
        requires
            lres.wf(),
            rres.wf(),
        ensures
            r == to_ordering(key_rank(doc_key(lres, lid.0), doc_key(rres, rid.0))),
    {
        match self.rank(lid, lres, rid, rres) {
            Rank::Less => Ordering::Less,
            Rank::Equal => Ordering::Equal,
            Rank::Greater => Ordering::Greater,
        }
    }
}

impl Default for Comparer {
    fn default() -> (r: Self)
        ensures
            r.is_clear(),
    {
        Comparer::new()
    }
}

/// The ordering that a rank stands for.
pub open spec fn to_ordering(rank: Rank) -> Ordering {
    match rank {
        Rank::Less => Ordering::Less,
        Rank::Equal => Ordering::Equal,
        Rank::Greater => Ordering::Greater,
    }
}

/// Compares document `lid` of `lres` with document `rid` of `rres`. The better document
/// is the smaller.
pub fn compare(lid: DocId, lres: &SearchResults, rid: DocId, rres: &SearchResults) -> (r: Ordering)
    requires
        lres.wf(),
        rres.wf(),
    ensures
        r == to_ordering(key_rank(doc_key(lres, lid.0), doc_key(rres, rid.0))),
{
    let mut comparer = Comparer::new();
    comparer.compare(lid, lres, rid, rres)
}

} // verus!
