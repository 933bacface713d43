//! The proximity-sequence score of an attribute of a document: how many query words
//! matched in it, how near to each other their matches stand, and how many of them follow
//! each other as in the query.

use super::Rank;
use crate::index_to_query::{BestMatch, IndexToQuery};
use crate::word::words_view;
use vstd::prelude::*;

verus! {

broadcast use vstd::seq_lib::group_seq_properties;

/// Where a query word matched best: the position of the matched word in the value, and
/// the distance of the match.
#[derive(Clone, Copy, Debug)]
pub struct Spot {
    pub location: usize,
    pub distance: u8,
}

/// The best match of the query word at position `qi` among `words`: the closest, and of
/// equally close ones the first.
pub open spec fn best_spot(lookup: Map<Seq<char>, BestMatch>, words: Seq<Seq<char>>, qi: int) -> Option<Spot>
    decreases words.len(),
{
    if words.len() == 0 {
        None
    } else {
        let rest = best_spot(lookup, words.drop_last(), qi);
        let w = words.last();
        if lookup.contains_key(w) && lookup[w].query_index == qi {
            let here = Spot { location: (words.len() - 1) as usize, distance: lookup[w].distance };
            match rest {
                Some(s) => if here.distance < s.distance {
                    Some(here)
                } else {
                    rest
                },
                None => Some(here),
            }
        } else {
            rest
        }
    }
}

/// The best match of each of `len` query words among `words`.
pub open spec fn spots(lookup: Map<Seq<char>, BestMatch>, words: Seq<Seq<char>>, len: int) -> Seq<Option<Spot>> {
    Seq::new(len as nat, |qi: int| best_spot(lookup, words, qi))
}

/// What a walk through the query words has seen of their best matches.
pub ghost struct Walk {
    /// How many query words matched.
    pub count: int,
    /// The smallest location of a match.
    pub min: int,
    /// The largest location of a match.
    pub max: int,
    /// The location of the match of the last query word that matched.
    pub last: Option<int>,
    /// How many matches stand behind the match of the query word that matched before.
    pub seq: int,
}

/// What the walk has seen after the first `n` query words.
pub open spec fn walk(s: Seq<Option<Spot>>, n: int) -> Walk
    decreases n,
{
    if n <= 0 {
        Walk { count: 0, min: usize::MAX as int, max: 0, last: None, seq: 0 }
    } else {
        let w = walk(s, n - 1);
        match s[n - 1] {
            None => w,
            Some(spot) => Walk {
                count: w.count + 1,
                min: if spot.location < w.min {
                    spot.location as int
                } else {
                    w.min
                },
                max: if spot.location > w.max {
                    spot.location as int
                } else {
                    w.max
                },
                last: Some(spot.location as int),
                seq: match w.last {
                    Some(l) => if l < spot.location {
                        w.seq + 1
                    } else {
                        w.seq
                    },
                    None => w.seq,
                },
            },
        }
    }
}

/// A proximity-sequence score, as plain values.
pub ghost struct ProximityModel {
    /// How many query words matched.
    pub count: int,
    /// The distance between the first and the last of their matches, 0 for fewer than
    /// two.
    pub proximity: int,
    /// How many matches stand behind the match of the query word that matched before.
    pub seq: int,
}

/// The score that a walk ends with.
pub open spec fn walk_score(w: Walk) -> ProximityModel {
    ProximityModel {
        count: w.count,
        proximity: if w.count > 1 {
            w.max - w.min
        } else {
            0
        },
        seq: w.seq,
    }
}

/// The proximity-sequence score that `words` earn.
pub open spec fn score_of(lookup: Map<Seq<char>, BestMatch>, words: Seq<Seq<char>>, len: int) -> ProximityModel {
    walk_score(walk(spots(lookup, words, len), len))
}

/// How the score `l` ranks against `r`: more matched query words first, then matches
/// nearer to each other, then more matches in the order of the query. `Less` is the
/// better score.
pub open spec fn score_rank(l: ProximityModel, r: ProximityModel) -> Rank {
    if l.count > r.count {
        Rank::Less
    } else if l.count < r.count {
        Rank::Greater
    } else if l.proximity < r.proximity {
        Rank::Less
    } else if l.proximity > r.proximity {
        Rank::Greater
    } else if l.seq > r.seq {
        Rank::Less
    } else if l.seq < r.seq {
        Rank::Greater
    } else {
        Rank::Equal
    }
}

/// A walk counts no more than the query words it has seen, and its smallest location is
/// not above its largest once it has counted one.
pub proof fn lemma_walk_bounds(s: Seq<Option<Spot>>, n: int)
    requires
        0 <= n <= s.len(),
    ensures
        0 <= walk(s, n).count <= n,
        0 <= walk(s, n).seq <= walk(s, n).count,
        0 <= walk(s, n).max <= usize::MAX,
        0 <= walk(s, n).min <= usize::MAX,
        walk(s, n).count > 0 ==> walk(s, n).min <= walk(s, n).max,
        walk(s, n).count > 0 <==> walk(s, n).last is Some,
        walk(s, n).last matches Some(l) ==> 0 <= l <= usize::MAX,
    decreases n,
{
    if n > 0 {
        lemma_walk_bounds(s, n - 1);
    }
}

/// The smallest and the largest of the locations seen.
pub struct Proximity {
    pub max: usize,
    pub min: usize,
}

impl Proximity {
    /// No location seen yet.
    pub fn new() -> (r: Self)
        ensures
            r.max == 0,
            r.min == usize::MAX,
    {
        Proximity { max: 0, min: usize::MAX }
    }

    /// Sees the location `index`.
    pub fn add(&mut self, index: usize)
        ensures
            final(self).max == if index > old(self).max {
                index
            } else {
                old(self).max
            },
            final(self).min == if index < old(self).min {
                index
            } else {
                old(self).min
            },
    {
        if index > self.max {
            self.max = index;
        }
        if index < self.min {
            self.min = index;
        }
    }

    /// The distance between the smallest and the largest location seen.
    pub fn value(self) -> (r: usize)
        requires
            self.min <= self.max,
        ensures
            r == self.max - self.min,
    {
        self.max - self.min
    }
}

/// How many locations stand behind the one seen before them.
pub struct InOrder {
    pub last: Option<usize>,
    pub seq: usize,
}

impl InOrder {
    /// No location seen yet.
    pub fn new() -> (r: Self)
        ensures
            r.last == None::<usize>,
            r.seq == 0,
    {
        InOrder { last: None, seq: 0 }
    }

    /// Sees the location `index`.
    pub fn add(&mut self, index: usize)
        requires
            old(self).seq < usize::MAX,
        ensures
            final(self).last == Some(index),
            final(self).seq == match old(self).last {
                Some(last) => if last < index {
                    (old(self).seq + 1) as usize
                } else {
                    old(self).seq
                },
                None => old(self).seq,
            },
    {
        if let Some(last) = self.last {
            if last < index {
                self.seq += 1;
            }
        }
        self.last = Some(index);
    }
}

/// A proximity-sequence score, with the best match of each query word that it was made
/// from.
#[derive(Debug)]
pub struct ProximitySeqScore {
    pub count: usize,
    pub locations: Vec<Option<Spot>>,
    pub proximity: usize,
    pub seq: usize,
}

impl View for ProximitySeqScore {
    type V = ProximityModel;

    open spec fn view(&self) -> ProximityModel {
        ProximityModel { count: self.count as int, proximity: self.proximity as int, seq: self.seq as int }
    }
}

impl ProximitySeqScore {
    /// The score of an attribute in which no query word matched: the worst score.
    pub fn new() -> (r: Self)
        ensures
            r@ == (ProximityModel { count: 0, proximity: 0, seq: 0 }),
            r.locations@.len() == 0,
    {
        ProximitySeqScore { count: 0, locations: Vec::new(), proximity: 0, seq: 0 }
    }

    /// Records the match of `word`, which stands at `word_location` of the value, if it
    /// has one: it becomes the best match of its query word if it is closer than the one
    /// recorded.
    fn add_word(&mut self, index: &IndexToQuery, word: &Vec<char>, word_location: usize)
        requires
            index.wf(),
            old(self).locations@.len() == index.spec_query_len(),
        ensures
            final(self).locations@.len() == old(self).locations@.len(),
            final(self).count == old(self).count,
            final(self).proximity == old(self).proximity,
            final(self).seq == old(self).seq,
            forall|qi: int|
                0 <= qi < old(self).locations@.len() ==> #[trigger] final(self).locations@[qi] == if index@.contains_key(
                    word@,
                ) && index@[word@].query_index == qi {
                    let here = Spot { location: word_location, distance: index@[word@].distance };
                    match old(self).locations@[qi] {
                        Some(s) => if here.distance < s.distance {
                            Some(here)
                        } else {
                            old(self).locations@[qi]
                        },
                        None => Some(here),
                    }
                } else {
                    old(self).locations@[qi]
                },
    {
        if let Some(entry) = index.get(word) {
            let here = Spot { location: word_location, distance: entry.distance.0 };
            let better = match self.locations[entry.query_index] {
                Some(s) => here.distance < s.distance,
                None => true,
            };
            if better {
                self.locations.set(entry.query_index, Some(here));
            }
        }
    }

    /// Makes this the worst score, and forgets the matches.
    pub fn clear(&mut self)
        ensures
            final(self)@ == (ProximityModel { count: 0, proximity: 0, seq: 0 }),
            final(self).locations@.len() == 0,
    {
        self.count = 0;
        self.locations.clear();
        self.proximity = 0;
        self.seq = 0;
    }

    /// Makes room for the matches of `len` query words.
    fn ensure_size(&mut self, len: usize)
        ensures
            final(self)@ == old(self)@,
            final(self).locations@ == if old(self).locations@.len() < len {
                old(self).locations@ + Seq::new((len - old(self).locations@.len()) as nat, |i: int| None::<Spot>)
            } else {
                old(self).locations@
            },
    {
        let ghost before = self.locations@;
        while self.locations.len() < len
            invariant
                self@ == old(self)@,
                before == old(self).locations@,
                before.len() <= self.locations@.len(),
                self.locations@.len() <= len || self.locations@.len() == before.len(),
                forall|j: int| 0 <= j < before.len() ==> self.locations@[j] == before[j],
                forall|j: int| before.len() <= j < self.locations@.len() ==> self.locations@[j] == None::<Spot>,
            decreases len - self.locations.len(),
        {
            self.locations.push(None);
        }
        assert(self.locations@ =~= if before.len() < len {
            before + Seq::new((len - before.len()) as nat, |i: int| None::<Spot>)
        } else {
            before
        });
    }

    /// Makes this the score that `words` earn with the matches of `index`.
    pub fn update(&mut self, index: &IndexToQuery, words: &Vec<Vec<char>>)
        requires
            index.wf(),
        ensures
            final(self)@ == score_of(index@, words_view(words@), index.spec_query_len() as int),
    {
        self.clear();
        let len = index.query_len();
        self.ensure_size(len);
        let ghost lookup = index@;
        let ghost ws = words_view(words@);
        assert(self.locations@ =~= spots(lookup, ws.take(0), len as int));
        let mut k: usize = 0;
        while k < words.len()
            invariant
                0 <= k <= words.len(),
                index.wf(),
                lookup == index@,
                len == index.spec_query_len(),
                ws == words_view(words@),
                self.locations@ == spots(lookup, ws.take(k as int), len as int),
            decreases words.len() - k,
        {
            self.add_word(index, &words[k], k);
            proof {
                assert(ws.take(k + 1).drop_last() =~= ws.take(k as int));
                assert(ws.take(k + 1).last() == words@[k as int]@);
                assert(self.locations@ =~= spots(lookup, ws.take(k + 1), len as int));
            }
            k += 1;
        }
        assert(ws.take(words@.len() as int) =~= ws);
        self.update_proximity_seq();
    }

    /// Computes the score from the best matches recorded.
    fn update_proximity_seq(&mut self)
        ensures
            final(self).locations@ == old(self).locations@,
            final(self)@ == walk_score(walk(old(self).locations@, old(self).locations@.len() as int)),
    {
        let ghost s = self.locations@;
        let n = self.locations.len();
        let mut count: usize = 0;
        let mut prox = Proximity::new();
        let mut seq = InOrder::new();
        let mut qi: usize = 0;
        while qi < n
            invariant
                0 <= qi <= n,
                n == s.len(),
                s == self.locations@,
                walk(s, qi as int) == (Walk {
                    count: count as int,
                    min: prox.min as int,
                    max: prox.max as int,
                    last: match seq.last {
                        Some(l) => Some(l as int),
                        None => None,
                    },
                    seq: seq.seq as int,
                }),
            decreases n - qi,
        {
            proof {
                lemma_walk_bounds(s, qi as int);
                lemma_walk_bounds(s, qi + 1);
            }
            if let Some(spot) = self.locations[qi] {
                count += 1;
                prox.add(spot.location);
                seq.add(spot.location);
            }
            qi += 1;
        }
        proof {
            lemma_walk_bounds(s, n as int);
        }
        self.count = count;
        self.proximity = if count > 1 {
            prox.value()
        } else {
            0
        };
        self.seq = seq.seq;
    }

    /// How this score ranks against `other`. `Less` is the better score.
    pub fn rank(&self, other: &ProximitySeqScore) -> (r: Rank)
        ensures
            r == score_rank(self@, other@),
    {
        if self.count > other.count {
            Rank::Less
        } else if self.count < other.count {
            Rank::Greater
        } else if self.proximity < other.proximity {
            Rank::Less
        } else if self.proximity > other.proximity {
            Rank::Greater
        } else if self.seq > other.seq {
            Rank::Less
        } else if self.seq < other.seq {
            Rank::Greater
        } else {
            Rank::Equal
        }
    }
}

} // verus!
