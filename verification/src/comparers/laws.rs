//! The ranking is a total preorder: a document ranks equal to itself, two documents rank
//! against each other in opposite ways, and ranking is transitive.

use super::match_distance_score::{place, lemma_place, rec_rank, sorted_upto, Rec};
use super::{doc_key, key_rank, key_rank_from, tier_rank, Rank, TierScore};
use crate::search_results::SearchResults;
use vstd::prelude::*;

verus! {

/// The rank that stands for the opposite comparison.
pub open spec fn flipped(rank: Rank) -> Rank {
    match rank {
        Rank::Less => Rank::Greater,
        Rank::Equal => Rank::Equal,
        Rank::Greater => Rank::Less,
    }
}

/// The rank of `a` against `c` that follows from those of `a` against `b` and of `b`
/// against `c`, where the two do not point in opposite ways.
pub open spec fn chained(first: Rank, second: Rank) -> Rank {
    if first == Rank::Equal {
        second
    } else {
        first
    }
}

/// Whether two ranks can be chained: neither is `Less` where the other is `Greater`.
pub open spec fn chainable(first: Rank, second: Rank) -> bool {
    flipped(first) != second || first == Rank::Equal
}

/// Records rank reflexively, in opposite ways when exchanged, and transitively.
pub proof fn lemma_rec_rank(a: Rec, b: Rec, c: Rec)
    ensures
        rec_rank(a, a) == Rank::Equal,
        rec_rank(a, b) == flipped(rec_rank(b, a)),
        chainable(rec_rank(a, b), rec_rank(b, c)) ==> rec_rank(a, c) == chained(rec_rank(a, b), rec_rank(b, c)),
{
}

/// Match-distance scores rank reflexively.
pub proof fn lemma_distance_reflexive(a: Seq<Rec>, i: int)
    requires
        0 <= i <= a.len(),
    ensures
        super::match_distance_score::score_rank_from(a, a, i) == Rank::Equal,
    decreases a.len() - i,
{
    if i < a.len() {
        lemma_rec_rank(a[i], a[i], a[i]);
        lemma_distance_reflexive(a, i + 1);
    }
}

/// Match-distance scores rank in opposite ways when exchanged.
pub proof fn lemma_distance_flipped(a: Seq<Rec>, b: Seq<Rec>, i: int)
    requires
        0 <= i,
    ensures
        super::match_distance_score::score_rank_from(a, b, i) == flipped(
            super::match_distance_score::score_rank_from(b, a, i),
        ),
    decreases a.len() - i,
{
    if i < a.len() && i < b.len() {
        lemma_rec_rank(a[i], b[i], b[i]);
        lemma_distance_flipped(a, b, i + 1);
    }
}

/// Match-distance scores rank transitively.
pub proof fn lemma_distance_chained(a: Seq<Rec>, b: Seq<Rec>, c: Seq<Rec>, i: int)
    requires
        0 <= i,
        chainable(
            super::match_distance_score::score_rank_from(a, b, i),
            super::match_distance_score::score_rank_from(b, c, i),
        ),
    ensures
        super::match_distance_score::score_rank_from(a, c, i) == chained(
            super::match_distance_score::score_rank_from(a, b, i),
            super::match_distance_score::score_rank_from(b, c, i),
        ),
    decreases a.len() - i,
{
    if i < a.len() && i < b.len() && i < c.len() {
        lemma_rec_rank(a[i], b[i], c[i]);
        if rec_rank(a[i], b[i]) == Rank::Equal && rec_rank(b[i], c[i]) == Rank::Equal {
            lemma_distance_chained(a, b, c, i + 1);
        }
    }
}

/// The scores of a tier rank reflexively, in opposite ways when exchanged, and
/// transitively.
pub proof fn lemma_tier_rank(a: TierScore, b: TierScore, c: TierScore)
    ensures
        tier_rank(a, a) == Rank::Equal,
        tier_rank(a, b) == flipped(tier_rank(b, a)),
        chainable(tier_rank(a, b), tier_rank(b, c)) ==> tier_rank(a, c) == chained(
            tier_rank(a, b),
            tier_rank(b, c),
        ),
{
    lemma_distance_reflexive(a.match_distance, 0);
    lemma_distance_flipped(a.match_distance, b.match_distance, 0);
    if chainable(
        super::match_distance_score::score_rank(a.match_distance, b.match_distance),
        super::match_distance_score::score_rank(b.match_distance, c.match_distance),
    ) {
        lemma_distance_chained(a.match_distance, b.match_distance, c.match_distance, 0);
    }
}

/// The scores of a document rank equal to themselves.
pub proof fn lemma_key_reflexive(a: Seq<TierScore>, i: int)
    requires
        0 <= i <= a.len(),
    ensures
        key_rank_from(a, a, i) == Rank::Equal,
    decreases a.len() - i,
{
    if i < a.len() {
        lemma_tier_rank(a[i], a[i], a[i]);
        lemma_key_reflexive(a, i + 1);
    }
}

/// The scores of two documents rank in opposite ways when exchanged.
pub proof fn lemma_key_flipped(a: Seq<TierScore>, b: Seq<TierScore>, i: int)
    requires
        0 <= i,
    ensures
        key_rank_from(a, b, i) == flipped(key_rank_from(b, a, i)),
    decreases a.len() - i,
{
    if i < a.len() && i < b.len() {
        lemma_tier_rank(a[i], b[i], b[i]);
        lemma_key_flipped(a, b, i + 1);
    }
}

/// The scores of documents rank transitively.
pub proof fn lemma_key_chained(a: Seq<TierScore>, b: Seq<TierScore>, c: Seq<TierScore>, i: int)
    requires
        0 <= i,
        chainable(key_rank_from(a, b, i), key_rank_from(b, c, i)),
    ensures
        key_rank_from(a, c, i) == chained(key_rank_from(a, b, i), key_rank_from(b, c, i)),
    decreases a.len() - i,
{
    if i < a.len() && i < b.len() && i < c.len() {
        lemma_tier_rank(a[i], b[i], c[i]);
        if tier_rank(a[i], b[i]) == Rank::Equal && tier_rank(b[i], c[i]) == Rank::Equal {
            lemma_key_chained(a, b, c, i + 1);
        }
    }
}

/// A document compares equal to itself.
pub proof fn law_compare_reflexive(id: u32, res: &SearchResults)
    ensures
        key_rank(doc_key(res, id), doc_key(res, id)) == Rank::Equal,
{
    lemma_key_reflexive(doc_key(res, id), 0);
}

/// Comparing two documents the other way round gives the opposite answer: the
/// comparison is antisymmetric.
pub proof fn law_compare_antisymmetric(lid: u32, lres: &SearchResults, rid: u32, rres: &SearchResults)
    ensures
        key_rank(doc_key(lres, lid), doc_key(rres, rid)) == flipped(
            key_rank(doc_key(rres, rid), doc_key(lres, lid)),
        ),
{
    lemma_key_flipped(doc_key(lres, lid), doc_key(rres, rid), 0);
}

/// The comparison is transitive: where the first document is no worse than the second
/// and the second no worse than the third, the first is no worse than the third, and
/// better if one of the two steps is strict. The same holds of "no better".
pub proof fn law_compare_transitive(
    aid: u32,
    ares: &SearchResults,
    bid: u32,
    bres: &SearchResults,
    cid: u32,
    cres: &SearchResults,
)
    requires
        chainable(
            key_rank(doc_key(ares, aid), doc_key(bres, bid)),
            key_rank(doc_key(bres, bid), doc_key(cres, cid)),
        ),
    ensures
        key_rank(doc_key(ares, aid), doc_key(cres, cid)) == chained(
            key_rank(doc_key(ares, aid), doc_key(bres, bid)),
            key_rank(doc_key(bres, bid), doc_key(cres, cid)),
        ),
{
    lemma_key_chained(doc_key(ares, aid), doc_key(bres, bid), doc_key(cres, cid), 0);
}

/// Every query word has its own position.
pub open spec fn positioned(all: Seq<Rec>) -> bool {
    forall|i: int| 0 <= i < all.len() ==> (#[trigger] all[i]).index == i
}

/// Every record of a match-distance score is the record of a query word that matched.
pub proof fn law_score_sound(all: Seq<Rec>, n: int, j: int)
    requires
        0 <= n <= all.len(),
        positioned(all),
        0 <= j < sorted_upto(all, n).len(),
    ensures
        sorted_upto(all, n)[j].distance is Some,
        sorted_upto(all, n)[j].index < n,
        sorted_upto(all, n)[j] == all[sorted_upto(all, n)[j].index as int],
    decreases n,
{
    let rest = sorted_upto(all, n - 1);
    let rec = all[n - 1];
    if rec.distance is Some {
        lemma_place(rest, rec, 0);
        let p = place(rest, rec, 0);
        if j < p {
            law_score_sound(all, n - 1, j);
        } else if j > p {
            law_score_sound(all, n - 1, j - 1);
        }
    } else {
        law_score_sound(all, n - 1, j);
    }
}

/// The record of every query word that matched is a record of the score.
pub proof fn law_score_complete(all: Seq<Rec>, n: int, i: int)
    requires
        0 <= i < n <= all.len(),
        all[i].distance is Some,
    ensures
        sorted_upto(all, n).contains(all[i]),
    decreases n,
{
    let rest = sorted_upto(all, n - 1);
    let rec = all[n - 1];
    let s = sorted_upto(all, n);
    if rec.distance is Some {
        lemma_place(rest, rec, 0);
        let p = place(rest, rec, 0);
        if i < n - 1 {
            law_score_complete(all, n - 1, i);
            let a = choose|a: int| 0 <= a < rest.len() && rest[a] == all[i];
            let j = if a < p {
                a
            } else {
                a + 1
            };
            assert(s[j] == all[i]);
        } else {
            assert(s[p] == all[i]);
        }
    } else {
        law_score_complete(all, n - 1, i);
    }
}

/// The records of a match-distance score ascend strictly: closest first, and among
/// equally close ones in the order of the query.
pub proof fn law_score_sorted(all: Seq<Rec>, n: int, j: int, k: int)
    requires
        0 <= n <= all.len(),
        positioned(all),
        0 <= j < k < sorted_upto(all, n).len(),
    ensures
        rec_rank(sorted_upto(all, n)[j], sorted_upto(all, n)[k]) == Rank::Less,
    decreases n,
{
    let rest = sorted_upto(all, n - 1);
    let rec = all[n - 1];
    let s = sorted_upto(all, n);
    if rec.distance is Some {
        lemma_place(rest, rec, 0);
        let p = place(rest, rec, 0);
        let a = if j < p {
            j
        } else {
            j - 1
        };
        let b = if k < p {
            k
        } else {
            k - 1
        };
        if j == p {
            assert(s[k] == rest[b]);
            lemma_rec_rank(rest[p], rec, rec);
            if b > p {
                law_score_sorted(all, n - 1, p, b);
                lemma_rec_rank(rec, rest[p], rest[b]);
            }
        } else if k == p {
            assert(s[j] == rest[a]);
            law_score_sound(all, n - 1, a);
            assert(rec_rank(rest[a], rec) != Rank::Greater);
        } else {
            assert(s[j] == rest[a] && s[k] == rest[b]);
            law_score_sorted(all, n - 1, a, b);
        }
    } else {
        law_score_sorted(all, n - 1, j, k);
    }
}

} // verus!
