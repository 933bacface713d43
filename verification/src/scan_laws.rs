//! What the scans of a word table return, held against the rows of the table.

use crate::fuzzy::dfa_distance;
use crate::word::{is_prefix, lemma_lt_irreflexive, word_lt};
use crate::word_index::{fuzzy_hit, hit, length_gap, prefix_hit, same_hit, RowModel};
use levenshtein_automata::DFA;
use vstd::prelude::*;

verus! {

/// The row at position `i` is the one that gave the match `h`.
pub open spec fn gives<B>(rows: Seq<RowModel>, f: spec_fn(RowModel) -> Option<B>, i: int, h: B) -> bool {
    0 <= i < rows.len() && f(rows[i]) == Some(h)
}

/// What a scan of rows with one more row returns.
proof fn lemma_scan_push<B>(rows: Seq<RowModel>, f: spec_fn(RowModel) -> Option<B>)
    requires
        rows.len() > 0,
    ensures
        rows.filter_map(f) == match f(rows.last()) {
            Some(h) => rows.drop_last().filter_map(f).push(h),
            None => rows.drop_last().filter_map(f),
        },
{
    match f(rows.last()) {
        Some(h) => {
            assert(rows.drop_last().filter_map(f) + seq![h] =~= rows.drop_last().filter_map(f).push(h));
        },
        None => {},
    }
}

/// Every match of a scan comes from a row.
pub proof fn lemma_scan_sound<B>(rows: Seq<RowModel>, f: spec_fn(RowModel) -> Option<B>, k: int)
    requires
        0 <= k < rows.filter_map(f).len(),
    ensures
        exists|i: int| gives(rows, f, i, rows.filter_map(f)[k]),
    decreases rows.len(),
{
    if rows.len() > 0 {
        lemma_scan_push(rows, f);
        let rest = rows.drop_last();
        let before = rest.filter_map(f);
        if k < before.len() {
            lemma_scan_sound(rest, f, k);
            let i = choose|i: int| gives(rest, f, i, before[k]);
            assert(rows[i] == rest[i]);
            assert(gives(rows, f, i, rows.filter_map(f)[k]));
        } else {
            assert(gives(rows, f, rows.len() - 1, rows.filter_map(f)[k]));
        }
    }
}

/// Every row that matches gives a match of the scan.
pub proof fn lemma_scan_complete<B>(rows: Seq<RowModel>, f: spec_fn(RowModel) -> Option<B>, i: int)
    requires
        0 <= i < rows.len(),
        f(rows[i]) is Some,
    ensures
        exists|k: int| 0 <= k < rows.filter_map(f).len() && #[trigger] rows.filter_map(f)[k] == f(rows[i])->0,
    decreases rows.len(),
{
    lemma_scan_push(rows, f);
    let rest = rows.drop_last();
    let before = rest.filter_map(f);
    let hits = rows.filter_map(f);
    if i < rest.len() {
        assert(rest[i] == rows[i]);
        lemma_scan_complete(rest, f, i);
        let k = choose|k: int| 0 <= k < before.len() && #[trigger] before[k] == f(rest[i])->0;
        assert(hits[k] == before[k]);
    } else {
        assert(hits[hits.len() - 1] == f(rows[i])->0);
    }
}

/// Of two matches of a scan the earlier comes from the earlier row.
pub proof fn lemma_scan_ordered<B>(rows: Seq<RowModel>, f: spec_fn(RowModel) -> Option<B>, k1: int, k2: int)
    requires
        0 <= k1 < k2 < rows.filter_map(f).len(),
    ensures
        exists|ia: int, ib: int|
            ia < ib && #[trigger] gives(rows, f, ia, rows.filter_map(f)[k1]) && #[trigger] gives(
                rows,
                f,
                ib,
                rows.filter_map(f)[k2],
            ),
    decreases rows.len(),
{
    if rows.len() > 0 {
        lemma_scan_push(rows, f);
        let rest = rows.drop_last();
        let before = rest.filter_map(f);
        let hits = rows.filter_map(f);
        if k2 < before.len() {
            lemma_scan_ordered(rest, f, k1, k2);
            let (ia, ib) = choose|ia: int, ib: int|
                ia < ib && #[trigger] gives(rest, f, ia, before[k1]) && #[trigger] gives(rest, f, ib, before[k2]);
            assert(rows[ia] == rest[ia] && rows[ib] == rest[ib]);
            assert(gives(rows, f, ia, hits[k1]) && gives(rows, f, ib, hits[k2]));
        } else {
            lemma_scan_sound(rest, f, k1);
            let ia = choose|i: int| gives(rest, f, i, before[k1]);
            assert(rows[ia] == rest[ia]);
            assert(gives(rows, f, ia, hits[k1]) && gives(rows, f, rows.len() - 1, hits[k2]));
        }
    }
}

/// The rows ascend strictly by word.
pub open spec fn rows_ascend(rows: Seq<RowModel>) -> bool {
    forall|i: int, j: int| 0 <= i < j < rows.len() ==> word_lt((#[trigger] rows[i]).word, (#[trigger] rows[j]).word)
}

/// An equality scan finds a match exactly where the table holds the word, and then the
/// one row of the word.
pub proof fn law_eq_scan(rows: Seq<RowModel>, q: Seq<char>)
    requires
        rows_ascend(rows),
    ensures
        rows.filter_map(same_hit(q)).len() > 0 <==> exists|i: int| 0 <= i < rows.len() && (#[trigger] rows[i]).word == q,
        rows.filter_map(same_hit(q)).len() <= 1,
        forall|k: int|
            0 <= k < rows.filter_map(same_hit(q)).len() ==> (#[trigger] rows.filter_map(same_hit(q))[k]).word == q
                && rows.filter_map(same_hit(q))[k].distance == 0,
{
    let f = same_hit(q);
    let hits = rows.filter_map(f);
    if hits.len() > 0 {
        lemma_scan_sound(rows, f, 0);
        let i = choose|i: int| gives(rows, f, i, hits[0]);
        assert(rows[i].word == q);
    }
    if exists|i: int| 0 <= i < rows.len() && (#[trigger] rows[i]).word == q {
        let i = choose|i: int| 0 <= i < rows.len() && (#[trigger] rows[i]).word == q;
        lemma_scan_complete(rows, f, i);
    }
    if hits.len() > 1 {
        lemma_scan_ordered(rows, f, 0, 1);
        let (ia, ib) = choose|ia: int, ib: int|
            ia < ib && #[trigger] gives(rows, f, ia, hits[0]) && #[trigger] gives(rows, f, ib, hits[1]);
        assert(word_lt(rows[ia].word, rows[ib].word));
        lemma_lt_irreflexive(q);
    }
    assert forall|k: int| 0 <= k < hits.len() implies (#[trigger] hits[k]).word == q && hits[k].distance == 0 by {
        lemma_scan_sound(rows, f, k);
        let i = choose|i: int| gives(rows, f, i, hits[k]);
    }
}

/// A prefix scan returns exactly the rows whose word starts with the query word, in
/// ascending order of their words.
pub proof fn law_prefix_scan(rows: Seq<RowModel>, q: Seq<char>)
    requires
        rows_ascend(rows),
    ensures
        forall|k: int|
            0 <= k < rows.filter_map(prefix_hit(q)).len() ==> is_prefix(
                q,
                (#[trigger] rows.filter_map(prefix_hit(q))[k]).word,
            ) && exists|i: int|
                0 <= i < rows.len() && rows.filter_map(prefix_hit(q))[k] == hit(
                    #[trigger] rows[i],
                    length_gap(rows[i].word, q),
                ),
        forall|i: int|
            0 <= i < rows.len() && is_prefix(q, (#[trigger] rows[i]).word) ==> exists|k: int|
                0 <= k < rows.filter_map(prefix_hit(q)).len() && #[trigger] rows.filter_map(prefix_hit(q))[k]
                    == hit(rows[i], length_gap(rows[i].word, q)),
        forall|k1: int, k2: int|
            0 <= k1 < k2 < rows.filter_map(prefix_hit(q)).len() ==> word_lt(
                (#[trigger] rows.filter_map(prefix_hit(q))[k1]).word,
                (#[trigger] rows.filter_map(prefix_hit(q))[k2]).word,
            ),
{
    let f = prefix_hit(q);
    let hits = rows.filter_map(f);
    assert forall|k: int| 0 <= k < hits.len() implies is_prefix(q, (#[trigger] hits[k]).word) && exists|i: int|
        0 <= i < rows.len() && hits[k] == hit(#[trigger] rows[i], length_gap(rows[i].word, q)) by {
        lemma_scan_sound(rows, f, k);
        let i = choose|i: int| gives(rows, f, i, hits[k]);
        assert(hits[k] == hit(rows[i], length_gap(rows[i].word, q)));
    }
    assert forall|i: int| 0 <= i < rows.len() && is_prefix(q, (#[trigger] rows[i]).word) implies exists|k: int|
        0 <= k < hits.len() && #[trigger] hits[k] == hit(rows[i], length_gap(rows[i].word, q)) by {
        lemma_scan_complete(rows, f, i);
        let k = choose|k: int| 0 <= k < hits.len() && #[trigger] hits[k] == f(rows[i])->0;
    }
    assert forall|k1: int, k2: int| 0 <= k1 < k2 < hits.len() implies word_lt(
        (#[trigger] hits[k1]).word,
        (#[trigger] hits[k2]).word,
    ) by {
        lemma_scan_ordered(rows, f, k1, k2);
        let (ia, ib) = choose|ia: int, ib: int|
            ia < ib && #[trigger] gives(rows, f, ia, hits[k1]) && #[trigger] gives(rows, f, ib, hits[k2]);
        assert(word_lt(rows[ia].word, rows[ib].word));
    }
}

/// A fuzzy scan returns exactly the rows on which the automaton answers an exact number
/// of edits, and none on which it answers "at least".
pub proof fn law_fuzzy_scan(rows: Seq<RowModel>, dfa: &DFA, query_len: u8)
    ensures
        forall|k: int|
            0 <= k < rows.filter_map(fuzzy_hit(dfa, query_len)).len() ==> dfa_distance(
                dfa,
                (#[trigger] rows.filter_map(fuzzy_hit(dfa, query_len))[k]).word,
            ) is Some,
        forall|i: int|
            0 <= i < rows.len() && dfa_distance(dfa, (#[trigger] rows[i]).word) is Some ==> exists|k: int|
                0 <= k < rows.filter_map(fuzzy_hit(dfa, query_len)).len() && (#[trigger] rows.filter_map(
                    fuzzy_hit(dfa, query_len),
                )[k]).word == rows[i].word,
{
    let f = fuzzy_hit(dfa, query_len);
    let hits = rows.filter_map(f);
    assert forall|k: int| 0 <= k < hits.len() implies dfa_distance(dfa, (#[trigger] hits[k]).word) is Some by {
        lemma_scan_sound(rows, f, k);
        let i = choose|i: int| gives(rows, f, i, hits[k]);
    }
    assert forall|i: int| 0 <= i < rows.len() && dfa_distance(dfa, (#[trigger] rows[i]).word) is Some implies exists|
        k: int,
    | 0 <= k < hits.len() && (#[trigger] hits[k]).word == rows[i].word by {
        lemma_scan_complete(rows, f, i);
        let k = choose|k: int| 0 <= k < hits.len() && #[trigger] hits[k] == f(rows[i])->0;
    }
}

} // verus!
