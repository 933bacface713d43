//! Every word of a document's record is filed: the operations of an index keep each
//! document under each of its words, in the tables that the attribute's culture selects.

use crate::index_model::{
    any_selected, attr_dropped, doc_has, doc_without_attr, dropped, ensure_culture, grown,
    insert_doc_attribute, lemma_table_add_all, lemma_table_del_all, remove_attr, remove_doc, replayed,
    selects, tables_add_all, tables_without_attr,
    words_at, DocModel, IndexModel, Table, Word,
};
use crate::word_index::docs_in;
use vstd::prelude::*;

verus! {

/// The table at position `t` holds document `d` under the word at position `k` of its
/// attribute `a`.
pub open spec fn files(s: IndexModel, t: int, d: int, a: int, k: int) -> bool {
    docs_in(s.tables[t], s.docs[d][a][k]).contains(d as u32)
}

/// Every word of every document's record is filed: the document is held under it in each
/// table that the culture of the word's attribute selects, where `cs` gives the culture
/// of each attribute position.
pub open spec fn covered(s: IndexModel, cs: Seq<Option<u8>>) -> bool {
    forall|t: int, d: int, a: int, k: int|
        0 <= t < s.tables.len() && 0 <= d < s.docs.len() && 0 <= a < s.docs[d].len() && a < cs.len() && 0 <= k
            < s.docs[d][a].len() && selects(cs[a], t) ==> #[trigger] files(s, t, d, a, k)
}

/// No document's record has more than `n` attributes.
pub open spec fn docs_fit(s: IndexModel, n: int) -> bool {
    forall|d: int| 0 <= d < s.docs.len() ==> (#[trigger] s.docs[d]).len() <= n
}

/// A word that a document no longer holds is none of its words.
pub proof fn lemma_dropped(doc: DocModel, previous: Seq<Word>, w: Word)
    requires
        dropped(doc, previous).contains(w),
    ensures
        !doc_has(doc, w),
{
    let f = |w: Word| !doc_has(doc, w);
    let i = choose|i: int| 0 <= i < previous.filter(f).len() && previous.filter(f)[i] == w;
    previous.lemma_filter_pred(f, i);
}

/// Replacing an attribute's value keeps every word filed.
pub proof fn lemma_insert_covered(s: IndexModel, cs: Seq<Option<u8>>, d: u32, a: int, words: Seq<Word>)
    requires
        covered(s, cs),
        0 <= a < cs.len(),
        s.docs.len() <= u32::MAX + 1,
    ensures
        covered(insert_doc_attribute(s, d, a, cs[a], words), cs),
{
    let culture = cs[a];
    let r = insert_doc_attribute(s, d, a, culture, words);
    let n = s.tables.len() as int;
    let list = if any_selected(culture, n) {
        words
    } else {
        Seq::empty()
    };
    let filed = tables_add_all(s.tables, culture, list, d);
    let none = Seq::<Seq<Seq<char>>>::empty();
    let docs = grown(s.docs, d + 1, none);
    let attrs = grown(docs[d as int], a + 1, Seq::<Word>::empty());
    let doc = attrs.update(a, list);
    let gone = dropped(doc, attrs[a]);
    let kept = list.len() == 0 && (d >= s.docs.len() || a >= s.docs[d as int].len());
    assert forall|t: int, x: int, b: int, k: int|
        0 <= t < r.tables.len() && 0 <= x < r.docs.len() && 0 <= b < r.docs[x].len() && b < cs.len() && 0 <= k
            < r.docs[x][b].len() && selects(cs[b], t) implies #[trigger] files(r, t, x, b, k) by {
        let w = r.docs[x][b][k];
        lemma_table_add_all(s.tables[t], list, d, w);
        if kept {
            assert(r.docs == s.docs);
            assert(files(s, t, x, b, k));
        } else {
            lemma_table_del_all(filed[t], gone, d, w);
            if x != d {
                assert(x < s.docs.len());
                assert(r.docs[x] == s.docs[x]);
                assert(files(s, t, x, b, k));
            } else {
                assert(r.docs[x] == doc);
                assert(doc[b].contains(w));
                assert(doc_has(doc, w));
                if gone.contains(w) {
                    lemma_dropped(doc, attrs[a], w);
                }
                if b == a {
                    assert(list.contains(w));
                } else {
                    assert(x < s.docs.len() && b < s.docs[x].len());
                    assert(s.docs[x][b] == doc[b]);
                    assert(files(s, t, x, b, k));
                }
            }
        }
    }
}

/// Replacing an attribute's value leaves no record longer than the attributes allow.
pub proof fn lemma_insert_fits(s: IndexModel, n: int, d: u32, a: int, culture: Option<u8>, words: Seq<Word>)
    requires
        docs_fit(s, n),
        0 <= a < n,
    ensures
        docs_fit(insert_doc_attribute(s, d, a, culture, words), n),
{
    let r = insert_doc_attribute(s, d, a, culture, words);
    assert forall|x: int| 0 <= x < r.docs.len() implies (#[trigger] r.docs[x]).len() <= n by {
        if x < s.docs.len() {
            assert(s.docs[x].len() <= n);
        }
    }
}

/// Removing a document keeps every word filed, and no record longer.
pub proof fn lemma_remove_doc_covered(s: IndexModel, cs: Seq<Option<u8>>, d: u32)
    requires
        covered(s, cs),
        s.docs.len() <= u32::MAX + 1,
    ensures
        covered(remove_doc(s, d), cs),
        forall|n: int| docs_fit(s, n) ==> docs_fit(remove_doc(s, d), n),
{
    let r = remove_doc(s, d);
    if d < s.docs.len() {
        let words = crate::index_model::all_words(s.docs[d as int]);
        assert forall|t: int, x: int, b: int, k: int|
            0 <= t < r.tables.len() && 0 <= x < r.docs.len() && 0 <= b < r.docs[x].len() && b < cs.len() && 0
                <= k < r.docs[x][b].len() && selects(cs[b], t) implies #[trigger] files(r, t, x, b, k) by {
            let w = r.docs[x][b][k];
            assert(x != d);
            assert(r.docs[x] == s.docs[x]);
            assert(files(s, t, x, b, k));
            lemma_table_del_all(s.tables[t], words, d, w);
        }
        assert forall|n: int| docs_fit(s, n) implies docs_fit(r, n) by {
            assert forall|x: int| 0 <= x < r.docs.len() implies (#[trigger] r.docs[x]).len() <= n by {
                if x != d {
                    assert(s.docs[x].len() <= n);
                }
            }
        }
    }
}

/// After the first `n` documents lost an attribute, a table still holds every document
/// that it held, except under the words that the document lost with the attribute.
pub proof fn lemma_tables_without_attr(
    docs: Seq<DocModel>,
    ts: Seq<Table>,
    a: int,
    culture: Option<u8>,
    n: int,
    t: int,
    w: Word,
    x: u32,
)
    requires
        0 <= n <= docs.len() <= u32::MAX + 1,
        0 <= t < ts.len(),
        docs_in(ts[t], w).contains(x),
        !(x < n && attr_dropped(docs[x as int], a).contains(w)),
    ensures
        tables_without_attr(docs, ts, a, culture, n).len() == ts.len(),
        docs_in(tables_without_attr(docs, ts, a, culture, n)[t], w).contains(x),
    decreases n,
{
    if n > 0 {
        lemma_tables_without_attr(docs, ts, a, culture, n - 1, t, w, x);
        let before = tables_without_attr(docs, ts, a, culture, n - 1);
        lemma_table_del_all(before[t], attr_dropped(docs[n - 1], a), (n - 1) as u32, w);
    }
}

/// The number of tables stays when documents lose an attribute.
pub proof fn lemma_tables_without_attr_len(docs: Seq<DocModel>, ts: Seq<Table>, a: int, culture: Option<u8>, n: int)
    ensures
        tables_without_attr(docs, ts, a, culture, n).len() == ts.len(),
    decreases n,
{
    if n > 0 {
        lemma_tables_without_attr_len(docs, ts, a, culture, n - 1);
    }
}

/// Removing an attribute keeps every word filed, with the cultures of the attribute
/// positions that remain, and leaves the records one attribute shorter where they had
/// as many as the attributes allowed.
pub proof fn lemma_remove_attr_covered(s: IndexModel, cs: Seq<Option<u8>>, a: int)
    requires
        covered(s, cs),
        0 <= a < cs.len(),
        docs_fit(s, cs.len() as int),
        s.docs.len() <= u32::MAX + 1,
    ensures
        covered(remove_attr(s, a, cs[a]), cs.remove(a)),
        docs_fit(remove_attr(s, a, cs[a]), cs.len() - 1),
        remove_attr(s, a, cs[a]).tables.len() == s.tables.len(),
{
    let culture = cs[a];
    let r = remove_attr(s, a, culture);
    let rest = cs.remove(a);
    lemma_tables_without_attr_len(s.docs, s.tables, a, culture, s.docs.len() as int);
    assert forall|t: int, x: int, b: int, k: int|
        0 <= t < r.tables.len() && 0 <= x < r.docs.len() && 0 <= b < r.docs[x].len() && b < rest.len() && 0 <= k
            < r.docs[x][b].len() && selects(rest[b], t) implies #[trigger] files(r, t, x, b, k) by {
        let w = r.docs[x][b][k];
        let doc = s.docs[x];
        assert(r.docs[x] == doc_without_attr(doc, a));
        let from = if a < doc.len() && b >= a {
            b + 1
        } else {
            b
        };
        assert(doc[from] == r.docs[x][b]);
        assert(cs[from] == rest[b]);
        assert(files(s, t, x, from, k));
        if attr_dropped(doc, a).contains(w) {
            lemma_dropped(doc.remove(a), doc[a], w);
            assert(doc.remove(a)[b].contains(w));
        }
        lemma_tables_without_attr(s.docs, s.tables, a, culture, s.docs.len() as int, t, w, x as u32);
    }
    assert forall|x: int| 0 <= x < r.docs.len() implies (#[trigger] r.docs[x]).len() <= cs.len() - 1 by {
        assert(s.docs[x].len() <= cs.len());
        assert(r.docs[x] == doc_without_attr(s.docs[x], a));
    }
}

/// The words of a document at some attribute positions include every word of the
/// attribute at each of them.
pub proof fn lemma_words_at(doc: DocModel, positions: Seq<int>, a: int, w: Word)
    requires
        positions.contains(a),
        0 <= a < doc.len(),
        doc[a].contains(w),
    ensures
        words_at(doc, positions).contains(w),
    decreases positions.len(),
{
    let rest = words_at(doc, positions.drop_last());
    let last = positions.last();
    if last == a {
        let k = choose|k: int| 0 <= k < doc[a].len() && doc[a][k] == w;
        assert((rest + doc[a])[rest.len() + k] == w);
    } else {
        let i = choose|i: int| 0 <= i < positions.len() && positions[i] == a;
        assert(positions.drop_last()[i] == a);
        lemma_words_at(doc, positions.drop_last(), a, w);
        let k = choose|k: int| 0 <= k < rest.len() && rest[k] == w;
        if 0 <= last < doc.len() {
            assert((rest + doc[last])[k] == w);
        }
    }
}

/// A table built from the words at some attribute positions holds each document under
/// each of those words.
pub proof fn lemma_replayed(docs: Seq<DocModel>, positions: Seq<int>, n: int, x: int, w: Word)
    requires
        0 <= x < n <= docs.len() <= u32::MAX + 1,
        words_at(docs[x], positions).contains(w),
    ensures
        docs_in(replayed(docs, positions, n), w).contains(x as u32),
    decreases n,
{
    let before = replayed(docs, positions, n - 1);
    lemma_table_add_all(before, words_at(docs[n - 1], positions), (n - 1) as u32, w);
    if x < n - 1 {
        lemma_replayed(docs, positions, n - 1, x, w);
    }
}

/// No document holds a word in an attribute whose culture has no table.
pub open spec fn reachable(s: IndexModel, cs: Seq<Option<u8>>) -> bool {
    forall|d: int, a: int|
        0 <= d < s.docs.len() && 0 <= a < cs.len() && cs[a] is Some && cs[a]->0 >= s.tables.len() ==> a >= (
        #[trigger] s.docs[d]).len() || #[trigger] cs[a] is None
}

/// Bringing the tables to the number that the attributes ask for keeps every word filed:
/// provided that `positions` include the attribute positions without a culture, and that
/// no document holds a word in an attribute whose culture had no table.
pub proof fn lemma_ensure_covered(
    s: IndexModel,
    cs: Seq<Option<u8>>,
    in_use: bool,
    count: int,
    positions: Seq<int>,
)
    requires
        covered(s, cs),
        s.docs.len() <= u32::MAX + 1,
        0 <= count,
        forall|a: int| 0 <= a < cs.len() && cs[a] is None ==> #[trigger] positions.contains(a),
        reachable(s, cs),
    ensures
        covered(ensure_culture(s, in_use, count, positions), cs),
        forall|n: int| docs_fit(s, n) ==> docs_fit(ensure_culture(s, in_use, count, positions), n),
{
    let r = ensure_culture(s, in_use, count, positions);
    assert(r.docs == s.docs);
    assert forall|t: int, x: int, b: int, k: int|
        0 <= t < r.tables.len() && 0 <= x < r.docs.len() && 0 <= b < r.docs[x].len() && b < cs.len() && 0 <= k
            < r.docs[x][b].len() && selects(cs[b], t) implies #[trigger] files(r, t, x, b, k) by {
        let w = s.docs[x][b][k];
        if t < s.tables.len() {
            assert(r.tables[t] == s.tables[t]);
            assert(files(s, t, x, b, k));
        } else {
            assert(r.tables[t] == replayed(s.docs, positions, s.docs.len() as int));
            if cs[b] is Some {
                assert(b >= s.docs[x].len() || cs[b] is None);
            }
            assert(positions.contains(b));
            assert(s.docs[x][b].contains(w));
            lemma_words_at(s.docs[x], positions, b, w);
            lemma_replayed(s.docs, positions, s.docs.len() as int, x, w);
        }
    }
}

/// With one more attribute position that no record reaches, every word is still filed.
pub proof fn lemma_covered_push(s: IndexModel, cs: Seq<Option<u8>>, culture: Option<u8>)
    requires
        covered(s, cs),
        docs_fit(s, cs.len() as int),
    ensures
        covered(s, cs.push(culture)),
        docs_fit(s, (cs.len() + 1) as int),
{
    let more = cs.push(culture);
    assert forall|t: int, x: int, b: int, k: int|
        0 <= t < s.tables.len() && 0 <= x < s.docs.len() && 0 <= b < s.docs[x].len() && b < more.len() && 0 <= k
            < s.docs[x][b].len() && selects(more[b], t) implies #[trigger] files(s, t, x, b, k) by {
        assert(s.docs[x].len() <= cs.len());
        assert(more[b] == cs[b]);
    }
    assert forall|x: int| 0 <= x < s.docs.len() implies (#[trigger] s.docs[x]).len() <= cs.len() + 1 by {
        assert(s.docs[x].len() <= cs.len());
    }
}

/// Document `x` holds `w` in an attribute whose culture selects the table at position
/// `t`.
pub open spec fn holds_for(s: IndexModel, cs: Seq<Option<u8>>, t: int, x: int, w: Word) -> bool {
    0 <= x < s.docs.len() && exists|a: int|
        0 <= a < s.docs[x].len() && a < cs.len() && (#[trigger] s.docs[x][a]).contains(w) && selects(cs[a], t)
}

/// Every document that a table holds under `w` holds `w` in an attribute whose culture
/// selects that table.
pub open spec fn backed(s: IndexModel, cs: Seq<Option<u8>>, w: Word) -> bool {
    forall|t: int, x: u32|
        0 <= t < s.tables.len() && docs_in(s.tables[t], w).contains(x) ==> #[trigger] holds_for(
            s,
            cs,
            t,
            x as int,
            w,
        )
}

/// No attribute with a culture holds `w` in any document.
pub open spec fn only_without_culture(s: IndexModel, cs: Seq<Option<u8>>, w: Word) -> bool {
    forall|d: int, a: int|
        0 <= d < s.docs.len() && 0 <= a < s.docs[d].len() && a < cs.len() && (#[trigger] s.docs[d][a]).contains(
            w,
        ) ==> cs[a] is None
}

/// The rows of a word that only attributes without a culture hold are the same in every
/// table: where every word of the records is filed, and every document filed under the
/// word holds it, two tables file the same documents under it.
pub proof fn law_same_rows(s: IndexModel, cs: Seq<Option<u8>>, w: Word, t1: int, t2: int)
    requires
        covered(s, cs),
        backed(s, cs, w),
        only_without_culture(s, cs, w),
        s.docs.len() <= u32::MAX + 1,
        0 <= t1 < s.tables.len(),
        0 <= t2 < s.tables.len(),
    ensures
        docs_in(s.tables[t1], w) == docs_in(s.tables[t2], w),
{
    assert forall|x: u32| docs_in(s.tables[t1], w).contains(x) implies docs_in(s.tables[t2], w).contains(x) by {
        lemma_filed_elsewhere(s, cs, w, t1, t2, x);
    }
    assert forall|x: u32| docs_in(s.tables[t2], w).contains(x) implies docs_in(s.tables[t1], w).contains(x) by {
        lemma_filed_elsewhere(s, cs, w, t2, t1, x);
    }
    assert(docs_in(s.tables[t1], w) =~= docs_in(s.tables[t2], w));
}

/// A document that one table holds under a word of attributes without a culture is held
/// under it by every other table.
proof fn lemma_filed_elsewhere(s: IndexModel, cs: Seq<Option<u8>>, w: Word, from: int, to: int, x: u32)
    requires
        covered(s, cs),
        backed(s, cs, w),
        only_without_culture(s, cs, w),
        s.docs.len() <= u32::MAX + 1,
        0 <= from < s.tables.len(),
        0 <= to < s.tables.len(),
        docs_in(s.tables[from], w).contains(x),
    ensures
        docs_in(s.tables[to], w).contains(x),
{
    assert(holds_for(s, cs, from, x as int, w));
    let d = x as int;
    let a = choose|a: int|
        0 <= a < s.docs[d].len() && a < cs.len() && (#[trigger] s.docs[d][a]).contains(w) && selects(cs[a], from);
    let k = choose|k: int| 0 <= k < s.docs[d][a].len() && s.docs[d][a][k] == w;
    assert(cs[a] is None);
    assert(files(s, to, d, a, k));
}

/// The words of a document at some attribute positions are the words of the attributes
/// at those positions, and no others.
pub proof fn lemma_words_at_sound(doc: DocModel, positions: Seq<int>, w: Word)
    requires
        words_at(doc, positions).contains(w),
    ensures
        exists|i: int|
            0 <= i < positions.len() && 0 <= positions[i] < doc.len() && (#[trigger] doc[positions[i]]).contains(w),
    decreases positions.len(),
{
    if positions.len() > 0 {
        let rest = words_at(doc, positions.drop_last());
        let last = positions.last();
        let all = words_at(doc, positions);
        let k = choose|k: int| 0 <= k < all.len() && all[k] == w;
        if 0 <= last < doc.len() && k >= rest.len() {
            assert(doc[last][k - rest.len()] == w);
            assert(doc[positions[positions.len() - 1]].contains(w));
        } else {
            assert(rest[k] == w);
            lemma_words_at_sound(doc, positions.drop_last(), w);
            let i = choose|i: int|
                0 <= i < positions.drop_last().len() && 0 <= positions.drop_last()[i] < doc.len() && (
                #[trigger] doc[positions.drop_last()[i]]).contains(w);
            assert(positions[i] == positions.drop_last()[i]);
            assert(doc[positions[i]].contains(w));
        }
    }
}

/// A table built from the words at some attribute positions holds a document under a
/// word only where the document holds the word at one of those positions.
pub proof fn lemma_replayed_sound(docs: Seq<DocModel>, positions: Seq<int>, n: int, x: u32, w: Word)
    requires
        0 <= n <= docs.len() <= u32::MAX + 1,
        docs_in(replayed(docs, positions, n), w).contains(x),
    ensures
        x < n,
        words_at(docs[x as int], positions).contains(w),
    decreases n,
{
    if n > 0 {
        let before = replayed(docs, positions, n - 1);
        lemma_table_add_all(before, words_at(docs[n - 1], positions), (n - 1) as u32, w);
        if docs_in(before, w).contains(x) {
            lemma_replayed_sound(docs, positions, n - 1, x, w);
        }
    }
}

/// What a table that is added for a new culture holds: it files a document under a word
/// exactly where the document holds the word in one of the attributes without a culture
/// that the table was built from. The tables that were there stay as they were.
pub proof fn law_new_tables(s: IndexModel, count: int, positions: Seq<int>, t: int, x: u32, w: Word)
    requires
        s.docs.len() <= u32::MAX + 1,
        0 <= t < count,
        s.tables.len() < count,
    ensures
        ensure_culture(s, true, count, positions).tables.len() == count,
        t < s.tables.len() ==> ensure_culture(s, true, count, positions).tables[t] == s.tables[t],
        t >= s.tables.len() ==> (docs_in(ensure_culture(s, true, count, positions).tables[t], w).contains(x) <==> x
            < s.docs.len() && exists|i: int|
            0 <= i < positions.len() && 0 <= positions[i] < s.docs[x as int].len() && (
            #[trigger] s.docs[x as int][positions[i]]).contains(w)),
{
    let r = ensure_culture(s, true, count, positions);
    if t >= s.tables.len() {
        let fresh = replayed(s.docs, positions, s.docs.len() as int);
        assert(r.tables[t] == fresh);
        if docs_in(fresh, w).contains(x) {
            lemma_replayed_sound(s.docs, positions, s.docs.len() as int, x, w);
            lemma_words_at_sound(s.docs[x as int], positions, w);
        }
        if x < s.docs.len() && exists|i: int|
            0 <= i < positions.len() && 0 <= positions[i] < s.docs[x as int].len() && (
            #[trigger] s.docs[x as int][positions[i]]).contains(w) {
            let i = choose|i: int|
                0 <= i < positions.len() && 0 <= positions[i] < s.docs[x as int].len() && (
                #[trigger] s.docs[x as int][positions[i]]).contains(w);
            assert(positions.contains(positions[i]));
            lemma_words_at(s.docs[x as int], positions, positions[i], w);
            lemma_replayed(s.docs, positions, s.docs.len() as int, x as int, w);
        }
    }
}

} // verus!
