//! The reverse lookup of a query's results: for each indexed word that some query word
//! matched, the best of those matches.

use crate::bitmap::bitmap_set;
use crate::match_distance::MatchDistance;
use crate::match_entry::{entries_view, MatchEntry, MatchModel};
use crate::sorted::{has_key, index_of, keys_sorted, lemma_insert, lemma_update, search, Keyed};
use crate::word_query::WordQuery;
use roaring::RoaringBitmap;
use vstd::prelude::*;

verus! {

broadcast use vstd::seq_lib::group_seq_properties;

/// The best match of an indexed word, as plain values.
pub ghost struct BestMatch {
    pub distance: u8,
    pub query_index: usize,
    pub docs: Set<u32>,
}

/// The best match of an indexed word: its distance, the position of the query word that
/// made it, and the documents of the indexed word.
#[derive(Clone, Copy)]
pub struct IndexToQueryEntry<'a> {
    pub distance: MatchDistance,
    pub docs: &'a RoaringBitmap,
    pub query_index: usize,
    pub word: &'a Vec<char>,
}

impl<'a> Keyed for IndexToQueryEntry<'a> {
    closed spec fn key(&self) -> Seq<char> {
        self.word@
    }

    fn key_ref(&self) -> (w: &Vec<char>) {
        self.word
    }
}

impl<'a> View for IndexToQueryEntry<'a> {
    type V = BestMatch;

    open spec fn view(&self) -> BestMatch {
        BestMatch { distance: self.distance.0, query_index: self.query_index, docs: bitmap_set(self.docs) }
    }
}

/// Whether a match at `(distance, query_index)` is better than the recorded one: closer,
/// or as close and made by an earlier query word.
pub open spec fn improves(recorded: BestMatch, distance: u8, query_index: usize) -> bool {
    recorded.distance > distance || (recorded.distance == distance && recorded.query_index > query_index)
}

/// The lookup after the match `e`, made by the query word at position `query_index`, is
/// added: the match is recorded for its word unless a match no worse is recorded already.
pub open spec fn best_add(m: Map<Seq<char>, BestMatch>, e: MatchModel, query_index: usize) -> Map<
    Seq<char>,
    BestMatch,
> {
    if m.contains_key(e.word) && !improves(m[e.word], e.distance, query_index) {
        m
    } else {
        m.insert(e.word, BestMatch { distance: e.distance, query_index, docs: e.docs })
    }
}

/// The lookup after each of the matches `es`, made by the query word at position
/// `query_index`, is added in order.
pub open spec fn best_add_all(m: Map<Seq<char>, BestMatch>, es: Seq<MatchModel>, query_index: usize) -> Map<
    Seq<char>,
    BestMatch,
>
    decreases es.len(),
{
    if es.len() == 0 {
        m
    } else {
        best_add(best_add_all(m, es.drop_last(), query_index), es.last(), query_index)
    }
}

/// The larger of the recorded number of query words and what the position `query_index`
/// implies.
pub open spec fn grown_len(query_len: usize, query_index: usize) -> usize {
    if query_index + 1 > query_len {
        (query_index + 1) as usize
    } else {
        query_len
    }
}

/// The best match of each matched word, and the number of query words seen.
pub struct IndexToQuery<'a> {
    entries: Vec<IndexToQueryEntry<'a>>,
    query_len: usize,
}

impl<'a> View for IndexToQuery<'a> {
    type V = Map<Seq<char>, BestMatch>;

    /// The best match of each matched word.
    closed spec fn view(&self) -> Map<Seq<char>, BestMatch> {
        Map::new(
            |w: Seq<char>| has_key(self.entries@, w),
            |w: Seq<char>| self.entries@[index_of(self.entries@, w)]@,
        )
    }
}

impl<'a> IndexToQuery<'a> {
    /// The number of query words seen: one more than the largest position of a query word
    /// that was added, and 0 where none was.
    pub closed spec fn spec_query_len(&self) -> usize {
        self.query_len
    }

    /// No word is recorded twice, and every recorded position is below the number of
    /// query words seen.
    pub closed spec fn wf(&self) -> bool {
        &&& keys_sorted(self.entries@)
        &&& forall|i: int|
            0 <= i < self.entries@.len() ==> (#[trigger] self.entries@[i]).query_index < self.query_len
    }

    /// Every recorded position is below the number of query words seen.
    pub proof fn lemma_positions(&self)
        requires
            self.wf(),
        ensures
            forall|w: Seq<char>| #[trigger]
                self@.contains_key(w) ==> self@[w].query_index < self.spec_query_len(),
    {
    }

    /// A lookup without matches.
    pub fn new() -> (r: Self)
        ensures
            r.wf(),
            r@ == Map::<Seq<char>, BestMatch>::empty(),
            r.spec_query_len() == 0,
    {
        let r = IndexToQuery { entries: Vec::new(), query_len: 0 };
        assert(r@ =~= Map::<Seq<char>, BestMatch>::empty());
        r
    }

    /// Adds a match made by `query`, keeping for its word only the best match.
    pub fn add(&mut self, query: &WordQuery, match_entry: MatchEntry<'a>)
        requires
            old(self).wf(),
            query@.index < usize::MAX,
        ensures
            final(self).wf(),
            final(self)@ == best_add(old(self)@, match_entry@, query@.index),
            final(self).spec_query_len() == grown_len(old(self).spec_query_len(), query@.index),
    {
        let fresh = IndexToQueryEntry {
            distance: match_entry.distance,
            docs: match_entry.docs,
            query_index: query.index(),
            word: match_entry.word,
        };
        match search(&self.entries, match_entry.word) {
            Ok(at) => {
                let o = self.entries[at];
                if o.distance.0 > match_entry.distance.0 || (o.distance.0 == match_entry.distance.0
                    && o.query_index > query.index()) {
                    proof {
                        lemma_update(self.entries@, at as int, fresh);
                    }
                    self.entries.set(at, fresh);
                }
            },
            Err(at) => {
                proof {
                    lemma_insert(self.entries@, at as int, fresh);
                }
                self.entries.insert(at, fresh);
            },
        }
        if query.index() + 1 > self.query_len {
            self.query_len = query.index() + 1;
        }
        assert(self@ =~= best_add(old(self)@, match_entry@, query@.index));
    }

    /// Adds each of the matches made by `query`, in order.
    pub fn extend(&mut self, query: &WordQuery, entries: &Vec<MatchEntry<'a>>)
        requires
            old(self).wf(),
            query@.index < usize::MAX,
        ensures
            final(self).wf(),
            final(self)@ == best_add_all(old(self)@, entries_view(entries@), query@.index),
            final(self).spec_query_len() == if entries@.len() > 0 {
                grown_len(old(self).spec_query_len(), query@.index)
            } else {
                old(self).spec_query_len()
            },
    {
        let ghost es = entries_view(entries@);
        let mut i: usize = 0;
        assert(es.take(0) =~= Seq::<MatchModel>::empty());
        while i < entries.len()
            invariant
                0 <= i <= entries.len(),
                es == entries_view(entries@),
                query@.index < usize::MAX,
                self.wf(),
                self@ == best_add_all(old(self)@, es.take(i as int), query@.index),
                self.spec_query_len() == if i > 0 {
                    grown_len(old(self).spec_query_len(), query@.index)
                } else {
                    old(self).spec_query_len()
                },
            decreases entries.len() - i,
        {
            proof {
                assert(es.take(i + 1).drop_last() =~= es.take(i as int));
                assert(es.take(i + 1).last() == entries@[i as int]@);
            }
            self.add(query, entries[i]);
            i += 1;
        }
        assert(es.take(entries@.len() as int) =~= es);
    }

    /// The best match recorded for `word`, if one is.
    pub fn get(&self, word: &Vec<char>) -> (r: Option<&IndexToQueryEntry<'a>>)
        requires
            self.wf(),
        ensures
            match r {
                Some(e) => self@.contains_key(word@) && e@ == self@[word@] && e.query_index
                    < self.spec_query_len(),
                None => !self@.contains_key(word@),
            },
    {
        match search(&self.entries, word) {
            Ok(at) => Some(&self.entries[at]),
            Err(_) => None,
        }
    }

    /// The number of query words seen.
    pub fn query_len(&self) -> (r: usize)
        ensures
            r == self.spec_query_len(),
    {
        self.query_len
    }
}

} // verus!
