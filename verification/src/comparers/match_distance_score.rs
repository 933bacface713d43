//! The match-distance score of an attribute of a document: for each query word that
//! matched one of its words, the distance of the closest match, closest first.

use super::Rank;
use crate::index_to_query::{BestMatch, IndexToQuery};
use crate::match_distance::MatchDistance;
use crate::word::words_view;
use vstd::prelude::*;

verus! {

broadcast use vstd::seq_lib::group_seq_properties;

/// The closest match of one query word: its distance, if the word matched, and the
/// position of the word in the query.
#[derive(Clone, Copy, Debug)]
pub struct Rec {
    pub distance: Option<MatchDistance>,
    pub index: usize,
}

/// How `a` ranks against `b`: by distance first, a closer match before a farther one and
/// any match before none; then by the position of the query word.
pub open spec fn rec_rank(a: Rec, b: Rec) -> Rank {
    match (a.distance, b.distance) {
        (Some(l), Some(r)) => if l.0 < r.0 {
            Rank::Less
        } else if l.0 > r.0 {
            Rank::Greater
        } else if a.index < b.index {
            Rank::Less
        } else if a.index > b.index {
            Rank::Greater
        } else {
            Rank::Equal
        },
        (Some(_), None) => Rank::Less,
        (None, Some(_)) => Rank::Greater,
        (None, None) => Rank::Equal,
    }
}

impl Rec {
    /// The record of a query word that has not matched.
    pub fn new(index: usize) -> (r: Self)
        ensures
            r == (Rec { distance: None, index }),
    {
        Rec { distance: None, index }
    }

    /// How this record ranks against `other`.
    pub fn rank(&self, other: &Rec) -> (r: Rank)
        ensures
            r == rec_rank(*self, *other),
    {
        match (self.distance, other.distance) {
            (Some(l), Some(r)) => {
                if l.0 < r.0 {
                    Rank::Less
                } else if l.0 > r.0 {
                    Rank::Greater
                } else if self.index < other.index {
                    Rank::Less
                } else if self.index > other.index {
                    Rank::Greater
                } else {
                    Rank::Equal
                }
            },
            (Some(_), None) => Rank::Less,
            (None, Some(_)) => Rank::Greater,
            (None, None) => Rank::Equal,
        }
    }
}

/// How the score `l` ranks against `r` from position `i` on: by the first position at
/// which the two differ, and a score that ends first ranks behind.
pub open spec fn score_rank_from(l: Seq<Rec>, r: Seq<Rec>, i: int) -> Rank
    decreases l.len() - i,
{
    if i < 0 {
        Rank::Equal
    } else if i >= l.len() && i >= r.len() {
        Rank::Equal
    } else if i >= l.len() {
        Rank::Greater
    } else if i >= r.len() {
        Rank::Less
    } else if rec_rank(l[i], r[i]) != Rank::Equal {
        rec_rank(l[i], r[i])
    } else {
        score_rank_from(l, r, i + 1)
    }
}

/// How the score `l` ranks against `r`. `Less` is the better score.
pub open spec fn score_rank(l: Seq<Rec>, r: Seq<Rec>) -> Rank {
    score_rank_from(l, r, 0)
}

/// The smaller of a recorded distance, if there is one, and `d`.
pub open spec fn closer(recorded: Option<MatchDistance>, d: u8) -> Option<MatchDistance> {
    match recorded {
        Some(r) => if r.0 <= d {
            recorded
        } else {
            Some(MatchDistance(d))
        },
        None => Some(MatchDistance(d)),
    }
}

/// The distance of the closest match that the query word at position `qi` made among
/// `words`, if it made one.
pub open spec fn best_distance(lookup: Map<Seq<char>, BestMatch>, words: Seq<Seq<char>>, qi: int) -> Option<
    MatchDistance,
>
    decreases words.len(),
{
    if words.len() == 0 {
        None
    } else {
        let rest = best_distance(lookup, words.drop_last(), qi);
        let w = words.last();
        if lookup.contains_key(w) && lookup[w].query_index == qi {
            closer(rest, lookup[w].distance)
        } else {
            rest
        }
    }
}

/// The closest match of each of `len` query words among `words`.
pub open spec fn slots(lookup: Map<Seq<char>, BestMatch>, words: Seq<Seq<char>>, len: int) -> Seq<Rec> {
    Seq::new(len as nat, |qi: int| Rec { distance: best_distance(lookup, words, qi), index: qi as usize })
}

/// The number of records at the front of `s` that rank before `rec`.
pub open spec fn place(s: Seq<Rec>, rec: Rec, from: int) -> int
    decreases s.len() - from,
{
    if from < 0 || from >= s.len() || rec_rank(s[from], rec) == Rank::Greater {
        from
    } else {
        place(s, rec, from + 1)
    }
}

/// The records of the first `n` query words that matched, closest first.
pub open spec fn sorted_upto(all: Seq<Rec>, n: int) -> Seq<Rec>
    decreases n,
{
    if n <= 0 {
        Seq::empty()
    } else {
        let rest = sorted_upto(all, n - 1);
        if all[n - 1].distance is Some {
            rest.insert(place(rest, all[n - 1], 0), all[n - 1])
        } else {
            rest
        }
    }
}

/// The match-distance score that `words` earn: for each query word that matched one of
/// them the distance of its closest match; the records in ascending order of distance,
/// and of position in the query among equal distances.
pub open spec fn score_of(lookup: Map<Seq<char>, BestMatch>, words: Seq<Seq<char>>, len: int) -> Seq<Rec> {
    sorted_upto(slots(lookup, words, len), len)
}

/// The place of a record lies within the sequence, behind the records that rank before
/// it and before one that ranks behind it.
pub proof fn lemma_place(s: Seq<Rec>, rec: Rec, from: int)
    requires
        0 <= from <= s.len(),
    ensures
        from <= place(s, rec, from) <= s.len(),
        forall|i: int| from <= i < place(s, rec, from) ==> rec_rank(#[trigger] s[i], rec) != Rank::Greater,
        place(s, rec, from) < s.len() ==> rec_rank(s[place(s, rec, from)], rec) == Rank::Greater,
    decreases s.len() - from,
{
    if from < s.len() && rec_rank(s[from], rec) != Rank::Greater {
        lemma_place(s, rec, from + 1);
    }
}

/// A match-distance score.
#[derive(Debug)]
pub struct MatchDistanceScore(pub Vec<Rec>);

impl View for MatchDistanceScore {
    type V = Seq<Rec>;

    open spec fn view(&self) -> Seq<Rec> {
        self.0@
    }
}

impl MatchDistanceScore {
    /// The score of an attribute in which no query word matched: the worst score.
    pub fn new() -> (r: Self)
        ensures
            r@ == Seq::<Rec>::empty(),
    {
        MatchDistanceScore(Vec::new())
    }

    /// Records the match of `word`, if it has one, keeping for its query word the
    /// closest match.
    fn add_word(&mut self, index: &IndexToQuery, word: &Vec<char>)
        requires
            index.wf(),
            old(self)@.len() == index.spec_query_len(),
        ensures
            final(self)@.len() == old(self)@.len(),
            forall|qi: int|
                0 <= qi < old(self)@.len() ==> #[trigger] final(self)@[qi] == if index@.contains_key(word@)
                    && index@[word@].query_index == qi {
                    Rec { distance: closer(old(self)@[qi].distance, index@[word@].distance), ..old(self)@[qi] }
                } else {
                    old(self)@[qi]
                },
    {
        if let Some(entry) = index.get(word) {
            let rec = self.0[entry.query_index];
            let distance = match rec.distance {
                Some(d) => if d.0 <= entry.distance.0 {
                    d
                } else {
                    entry.distance
                },
                None => entry.distance,
            };
            self.0.set(entry.query_index, Rec { distance: Some(distance), index: rec.index });
        }
    }

    /// Makes this the worst score.
    pub fn clear(&mut self)
        ensures
            final(self)@ == Seq::<Rec>::empty(),
    {
        self.0.clear();
    }

    /// Makes this the score that `words` earn with the matches of `index`.
    pub fn update(&mut self, index: &IndexToQuery, words: &Vec<Vec<char>>)
        requires
            index.wf(),
        ensures
            final(self)@ == score_of(index@, words_view(words@), index.spec_query_len() as int),
    {
        self.clear();
        let len = index.query_len();
        let ghost lookup = index@;
        let ghost ws = words_view(words@);
        let mut qi: usize = 0;
        while qi < len
            invariant
                0 <= qi <= len,
                self@.len() == qi,
                forall|j: int| 0 <= j < qi ==> #[trigger] self@[j] == (Rec { distance: None, index: j as usize }),
            decreases len - qi,
        {
            self.0.push(Rec::new(qi));
            qi += 1;
        }
        assert(self@ =~= slots(lookup, ws.take(0), len as int));
        let mut k: usize = 0;
        while k < words.len()
            invariant
                0 <= k <= words.len(),
                index.wf(),
                lookup == index@,
                len == index.spec_query_len(),
                ws == words_view(words@),
                self@ == slots(lookup, ws.take(k as int), len as int),
            decreases words.len() - k,
        {
            let ghost before = self@;
            self.add_word(index, &words[k]);
            proof {
                assert(ws.take(k + 1).drop_last() =~= ws.take(k as int));
                assert(ws.take(k + 1).last() == words@[k as int]@);
                assert(self@ =~= slots(lookup, ws.take(k + 1), len as int));
            }
            k += 1;
        }
        assert(ws.take(words@.len() as int) =~= ws);
        let ghost all = self@;
        let mut out: Vec<Rec> = Vec::new();
        let mut qi: usize = 0;
        while qi < len
            invariant
                0 <= qi <= len,
                all == self@,
                all.len() == len,
                out@ == sorted_upto(all, qi as int),
            decreases len - qi,
        {
            let rec = self.0[qi];
            if rec.distance.is_some() {
                let ghost rest = out@;
                let mut at: usize = 0;
                proof {
                    lemma_place(rest, rec, 0);
                }
                while at < out.len() && !(out[at].rank(&rec) == Rank::Greater)
                    invariant
                        0 <= at <= out.len(),
                        rest == out@,
                        place(rest, rec, at as int) == place(rest, rec, 0),
                    decreases out.len() - at,
                {
                    at += 1;
                }
                out.insert(at, rec);
            }
            qi += 1;
        }
        self.0 = out;
    }

    /// How this score ranks against `other`. `Less` is the better score.
    pub fn rank(&self, other: &MatchDistanceScore) -> (r: Rank)
        ensures
            r == score_rank(self@, other@),
    {
        let mut i: usize = 0;
        loop
            invariant
                0 <= i <= self@.len(),
                i <= other@.len(),
                score_rank_from(self@, other@, i as int) == score_rank(self@, other@),
            decreases self@.len() - i,
        {
            if i >= self.0.len() {
                if i >= other.0.len() {
                    return Rank::Equal;
                }
                return Rank::Greater;
            }
            if i >= other.0.len() {
                return Rank::Less;
            }
            let o = self.0[i].rank(&other.0[i]);
            if !(o == Rank::Equal) {
                return o;
            }
            i += 1;
        }
    }
}

} // verus!
