//! The two orientations are mirror images: what an operation makes of a backward index
//! is what it makes of the forward index, with every word reversed.

use crate::direction::Direction;
use crate::index_model::{
    all_words, any_selected, attr_dropped, directional_words, doc_has, doc_without_attr, dropped,
    ensure_culture, grown, insert_doc_attribute, remove_attr, remove_doc, replayed, table_add_all, table_del_all, tables_add_all, tables_del_all, tables_without_attr, words_at,
    DocModel, IndexModel, Table, Word,
};
use crate::match_entry::MatchModel;
use crate::word::{is_infix, is_prefix, is_suffix, occurs_at, spec_capped_len};
use crate::word_index::{
    docs_in, infix_hit, prefix_hit, same_hit, suffix_hit, table_add, table_del, RowModel,
};
use vstd::prelude::*;

verus! {

/// The words, each reversed.
pub open spec fn mirror_words(ws: Seq<Word>) -> Seq<Word> {
    ws.map_values(|w: Word| w.reverse())
}

/// The record, with each word reversed.
pub open spec fn mirror_doc(doc: DocModel) -> DocModel {
    doc.map_values(|ws: Seq<Word>| mirror_words(ws))
}

/// The table, with each word reversed.
pub open spec fn mirror_table(m: Table) -> Table {
    Map::new(|w: Word| m.contains_key(w.reverse()), |w: Word| m[w.reverse()])
}

/// The index, with each word reversed.
pub open spec fn mirrored(s: IndexModel) -> IndexModel {
    IndexModel {
        docs: s.docs.map_values(|doc: DocModel| mirror_doc(doc)),
        tables: s.tables.map_values(|m: Table| mirror_table(m)),
    }
}

/// Reversing a word twice gives the word.
pub proof fn lemma_reverse_twice(w: Word)
    ensures
        w.reverse().reverse() == w,
{
    assert(w.reverse().reverse() =~= w);
}

/// Different words have different reverses.
pub proof fn lemma_reverse_injective(v: Word, w: Word)
    requires
        v.reverse() == w.reverse(),
    ensures
        v == w,
{
    lemma_reverse_twice(v);
    lemma_reverse_twice(w);
}

/// Filing commutes with mirroring.
pub proof fn lemma_mirror_add(m: Table, w: Word, d: u32)
    ensures
        mirror_table(table_add(m, w, d)) == table_add(mirror_table(m), w.reverse(), d),
{
    lemma_reverse_twice(w);
    let l = mirror_table(table_add(m, w, d));
    let r = table_add(mirror_table(m), w.reverse(), d);
    assert forall|x: Word| l.contains_key(x) == r.contains_key(x) by {
        lemma_reverse_twice(x);
    }
    assert forall|x: Word| l.contains_key(x) implies l[x] == r[x] by {
        lemma_reverse_twice(x);
    }
    assert(l =~= r);
}

/// Taking out commutes with mirroring.
pub proof fn lemma_mirror_del(m: Table, w: Word, d: u32)
    ensures
        mirror_table(table_del(m, w, d)) == table_del(mirror_table(m), w.reverse(), d),
{
    lemma_reverse_twice(w);
    let l = mirror_table(table_del(m, w, d));
    let r = table_del(mirror_table(m), w.reverse(), d);
    assert(docs_in(mirror_table(m), w.reverse()) == docs_in(m, w));
    assert forall|x: Word| l.contains_key(x) == r.contains_key(x) by {
        lemma_reverse_twice(x);
    }
    assert forall|x: Word| l.contains_key(x) implies l[x] == r[x] by {
        lemma_reverse_twice(x);
    }
    assert(l =~= r);
}

/// Filing under a list commutes with mirroring.
pub proof fn lemma_mirror_add_all(m: Table, ws: Seq<Word>, d: u32)
    ensures
        mirror_table(table_add_all(m, ws, d)) == table_add_all(mirror_table(m), mirror_words(ws), d),
    decreases ws.len(),
{
    if ws.len() > 0 {
        lemma_mirror_add_all(m, ws.drop_last(), d);
        lemma_mirror_add(table_add_all(m, ws.drop_last(), d), ws.last(), d);
        assert(mirror_words(ws).drop_last() =~= mirror_words(ws.drop_last()));
    }
}

/// Taking out from under a list commutes with mirroring.
pub proof fn lemma_mirror_del_all(m: Table, ws: Seq<Word>, d: u32)
    ensures
        mirror_table(table_del_all(m, ws, d)) == table_del_all(mirror_table(m), mirror_words(ws), d),
    decreases ws.len(),
{
    if ws.len() > 0 {
        lemma_mirror_del_all(m, ws.drop_last(), d);
        lemma_mirror_del(table_del_all(m, ws.drop_last(), d), ws.last(), d);
        assert(mirror_words(ws).drop_last() =~= mirror_words(ws.drop_last()));
    }
}

/// A record holds a word exactly where its mirror image holds the reversed word.
pub proof fn lemma_mirror_doc_has(doc: DocModel, w: Word)
    ensures
        doc_has(mirror_doc(doc), w.reverse()) == doc_has(doc, w),
{
    let md = mirror_doc(doc);
    if doc_has(doc, w) {
        let a = choose|a: int| 0 <= a < doc.len() && (#[trigger] doc[a]).contains(w);
        let k = choose|k: int| 0 <= k < doc[a].len() && doc[a][k] == w;
        assert(md[a][k] == w.reverse());
        assert(md[a].contains(w.reverse()));
    }
    if doc_has(md, w.reverse()) {
        let a = choose|a: int| 0 <= a < md.len() && (#[trigger] md[a]).contains(w.reverse());
        let k = choose|k: int| 0 <= k < md[a].len() && md[a][k] == w.reverse();
        lemma_reverse_injective(doc[a][k], w);
        assert(doc[a].contains(w));
    }
}

/// The words that a record no longer holds: mirroring commutes.
pub proof fn lemma_mirror_dropped(doc: DocModel, previous: Seq<Word>)
    ensures
        dropped(mirror_doc(doc), mirror_words(previous)) == mirror_words(dropped(doc, previous)),
    decreases previous.len(),
{
    reveal(Seq::filter);
    if previous.len() > 0 {
        let rest = previous.drop_last();
        let w = previous.last();
        lemma_mirror_dropped(doc, rest);
        lemma_mirror_doc_has(doc, w);
        assert(mirror_words(previous).drop_last() =~= mirror_words(rest));
        assert(mirror_words(previous).last() == w.reverse());
        if !doc_has(doc, w) {
            assert(mirror_words(dropped(doc, rest).push(w)) =~= mirror_words(dropped(doc, rest)).push(w.reverse()));
        }
    } else {
        assert(mirror_words(previous) =~= Seq::<Word>::empty());
        assert(mirror_words(dropped(doc, previous)) =~= Seq::<Word>::empty());
    }
}

/// All the words of a record: mirroring commutes.
pub proof fn lemma_mirror_all_words(doc: DocModel)
    ensures
        all_words(mirror_doc(doc)) == mirror_words(all_words(doc)),
    decreases doc.len(),
{
    if doc.len() > 0 {
        lemma_mirror_all_words(doc.drop_last());
        assert(mirror_doc(doc).drop_last() =~= mirror_doc(doc.drop_last()));
        assert(mirror_doc(doc).last() == mirror_words(doc.last()));
        assert(mirror_words(all_words(doc.drop_last()) + doc.last()) =~= mirror_words(all_words(doc.drop_last()))
            + mirror_words(doc.last()));
    } else {
        assert(mirror_words(all_words(doc)) =~= Seq::<Word>::empty());
    }
}

/// Filing in the selected tables commutes with mirroring.
pub proof fn lemma_mirror_tables_add_all(ts: Seq<Table>, culture: Option<u8>, ws: Seq<Word>, d: u32)
    ensures
        tables_add_all(ts, culture, ws, d).map_values(|m: Table| mirror_table(m)) == tables_add_all(
            ts.map_values(|m: Table| mirror_table(m)),
            culture,
            mirror_words(ws),
            d,
        ),
{
    let l = tables_add_all(ts, culture, ws, d).map_values(|m: Table| mirror_table(m));
    let r = tables_add_all(ts.map_values(|m: Table| mirror_table(m)), culture, mirror_words(ws), d);
    assert forall|t: int| 0 <= t < ts.len() implies l[t] == r[t] by {
        lemma_mirror_add_all(ts[t], ws, d);
    }
    assert(l =~= r);
}

/// Taking out of the selected tables commutes with mirroring.
pub proof fn lemma_mirror_tables_del_all(ts: Seq<Table>, culture: Option<u8>, ws: Seq<Word>, d: u32)
    ensures
        tables_del_all(ts, culture, ws, d).map_values(|m: Table| mirror_table(m)) == tables_del_all(
            ts.map_values(|m: Table| mirror_table(m)),
            culture,
            mirror_words(ws),
            d,
        ),
{
    let l = tables_del_all(ts, culture, ws, d).map_values(|m: Table| mirror_table(m));
    let r = tables_del_all(ts.map_values(|m: Table| mirror_table(m)), culture, mirror_words(ws), d);
    assert forall|t: int| 0 <= t < ts.len() implies l[t] == r[t] by {
        lemma_mirror_del_all(ts[t], ws, d);
    }
    assert(l =~= r);
}

/// Replacing an attribute's value commutes with mirroring.
pub proof fn lemma_mirror_insert(s: IndexModel, d: u32, a: int, culture: Option<u8>, words: Seq<Word>)
    requires
        0 <= a,
    ensures
        mirrored(insert_doc_attribute(s, d, a, culture, words)) == insert_doc_attribute(
            mirrored(s),
            d,
            a,
            culture,
            mirror_words(words),
        ),
{
    let ms = mirrored(s);
    let n = s.tables.len() as int;
    let list = if any_selected(culture, n) {
        words
    } else {
        Seq::empty()
    };
    let mlist = if any_selected(culture, n) {
        mirror_words(words)
    } else {
        Seq::empty()
    };
    assert(mlist =~= mirror_words(list));
    let filed = tables_add_all(s.tables, culture, list, d);
    lemma_mirror_tables_add_all(s.tables, culture, list, d);
    let l = mirrored(insert_doc_attribute(s, d, a, culture, words));
    let r = insert_doc_attribute(ms, d, a, culture, mirror_words(words));
    let none = Seq::<Seq<Seq<char>>>::empty();
    if list.len() == 0 && (d >= s.docs.len() || a >= s.docs[d as int].len()) {
        assert(l.docs =~= r.docs);
        assert(l.tables =~= r.tables);
    } else {
        let docs = grown(s.docs, d + 1, none);
        let attrs = grown(docs[d as int], a + 1, Seq::<Word>::empty());
        let doc = attrs.update(a, list);
        let mdocs = grown(ms.docs, d + 1, none);
        let mattrs = grown(mdocs[d as int], a + 1, Seq::<Word>::empty());
        let mdoc = mattrs.update(a, mlist);
        assert(mirror_doc(none) =~= none);
        assert(mirror_words(Seq::<Word>::empty()) =~= Seq::<Word>::empty());
        assert(mdocs =~= docs.map_values(|doc: DocModel| mirror_doc(doc)));
        assert(mattrs =~= mirror_doc(attrs));
        assert(mdoc =~= mirror_doc(doc));
        assert(mattrs[a] == mirror_words(attrs[a]));
        lemma_mirror_dropped(doc, attrs[a]);
        lemma_mirror_tables_del_all(filed, culture, dropped(doc, attrs[a]), d);
        assert(l.docs =~= r.docs);
        assert(l.tables =~= r.tables);
    }
}

/// Removing a document commutes with mirroring.
pub proof fn lemma_mirror_remove_doc(s: IndexModel, d: u32)
    ensures
        mirrored(remove_doc(s, d)) == remove_doc(mirrored(s), d),
{
    let l = mirrored(remove_doc(s, d));
    let r = remove_doc(mirrored(s), d);
    if d < s.docs.len() {
        let none = Seq::<Seq<Seq<char>>>::empty();
        assert(mirror_doc(none) =~= none);
        lemma_mirror_all_words(s.docs[d as int]);
        lemma_mirror_tables_del_all(s.tables, None, all_words(s.docs[d as int]), d);
        assert(l.docs =~= r.docs);
        assert(l.tables =~= r.tables);
    }
}

/// What an index of either orientation files for the tokens of a value: the forward
/// index the tokens, the backward index their reverses.
pub proof fn lemma_directional(tokens: Seq<Word>)
    ensures
        directional_words(tokens, Direction::Forward) == tokens,
        directional_words(tokens, Direction::Backward) == mirror_words(tokens),
{
    assert(directional_words(tokens, Direction::Forward) =~= tokens);
    assert(directional_words(tokens, Direction::Backward) =~= mirror_words(tokens));
}

/// A forward index and a backward index that are given the same value for an attribute
/// of a document stay mirror images of each other.
pub proof fn law_mirror_insert(s: IndexModel, d: u32, a: int, culture: Option<u8>, tokens: Seq<Word>)
    requires
        0 <= a,
    ensures
        mirrored(insert_doc_attribute(s, d, a, culture, directional_words(tokens, Direction::Forward)))
            == insert_doc_attribute(mirrored(s), d, a, culture, directional_words(tokens, Direction::Backward)),
{
    lemma_directional(tokens);
    lemma_mirror_insert(s, d, a, culture, tokens);
}

/// A forward index and a backward index from which the same document is removed stay
/// mirror images of each other.
pub proof fn law_mirror_remove_doc(s: IndexModel, d: u32)
    ensures
        mirrored(remove_doc(s, d)) == remove_doc(mirrored(s), d),
{
    lemma_mirror_remove_doc(s, d);
}

/// The words that a record loses with an attribute: mirroring commutes.
pub proof fn lemma_mirror_attr_dropped(doc: DocModel, a: int)
    ensures
        attr_dropped(mirror_doc(doc), a) == mirror_words(attr_dropped(doc, a)),
        doc_without_attr(mirror_doc(doc), a) == mirror_doc(doc_without_attr(doc, a)),
{
    if 0 <= a < doc.len() {
        assert(mirror_doc(doc).remove(a) =~= mirror_doc(doc.remove(a)));
        lemma_mirror_dropped(doc.remove(a), doc[a]);
    } else {
        assert(mirror_words(Seq::<Word>::empty()) =~= Seq::<Word>::empty());
    }
}

/// The tables after documents lost an attribute: mirroring commutes.
pub proof fn lemma_mirror_tables_without_attr(
    docs: Seq<DocModel>,
    ts: Seq<Table>,
    a: int,
    culture: Option<u8>,
    n: int,
)
    requires
        n <= docs.len(),
    ensures
        tables_without_attr(docs, ts, a, culture, n).map_values(|m: Table| mirror_table(m))
            == tables_without_attr(
            docs.map_values(|doc: DocModel| mirror_doc(doc)),
            ts.map_values(|m: Table| mirror_table(m)),
            a,
            culture,
            n,
        ),
    decreases n,
{
    if n > 0 {
        lemma_mirror_tables_without_attr(docs, ts, a, culture, n - 1);
        lemma_mirror_attr_dropped(docs[n - 1], a);
        lemma_mirror_tables_del_all(
            tables_without_attr(docs, ts, a, culture, n - 1),
            culture,
            attr_dropped(docs[n - 1], a),
            (n - 1) as u32,
        );
    }
}

/// A forward index and a backward index from which the same attribute is removed stay
/// mirror images of each other.
pub proof fn law_mirror_remove_attr(s: IndexModel, a: int, culture: Option<u8>)
    ensures
        mirrored(remove_attr(s, a, culture)) == remove_attr(mirrored(s), a, culture),
{
    let l = mirrored(remove_attr(s, a, culture));
    let r = remove_attr(mirrored(s), a, culture);
    lemma_mirror_tables_without_attr(s.docs, s.tables, a, culture, s.docs.len() as int);
    assert forall|x: int| 0 <= x < s.docs.len() implies l.docs[x] == r.docs[x] by {
        lemma_mirror_attr_dropped(s.docs[x], a);
    }
    assert(l.docs =~= r.docs);
}

/// The words of a record at some attribute positions: mirroring commutes.
pub proof fn lemma_mirror_words_at(doc: DocModel, positions: Seq<int>)
    ensures
        words_at(mirror_doc(doc), positions) == mirror_words(words_at(doc, positions)),
    decreases positions.len(),
{
    if positions.len() > 0 {
        lemma_mirror_words_at(doc, positions.drop_last());
        let a = positions.last();
        if 0 <= a < doc.len() {
            assert(mirror_words(words_at(doc, positions.drop_last()) + doc[a]) =~= mirror_words(
                words_at(doc, positions.drop_last()),
            ) + mirror_words(doc[a]));
        }
    } else {
        assert(mirror_words(Seq::<Word>::empty()) =~= Seq::<Word>::empty());
    }
}

/// A table built from the words at some attribute positions: mirroring commutes.
pub proof fn lemma_mirror_replayed(docs: Seq<DocModel>, positions: Seq<int>, n: int)
    requires
        n <= docs.len(),
    ensures
        mirror_table(replayed(docs, positions, n)) == replayed(
            docs.map_values(|doc: DocModel| mirror_doc(doc)),
            positions,
            n,
        ),
    decreases n,
{
    if n > 0 {
        lemma_mirror_replayed(docs, positions, n - 1);
        lemma_mirror_words_at(docs[n - 1], positions);
        lemma_mirror_add_all(replayed(docs, positions, n - 1), words_at(docs[n - 1], positions), (n - 1) as u32);
    } else {
        assert(mirror_table(Map::<Seq<char>, Set<u32>>::empty()) =~= Map::<Seq<char>, Set<u32>>::empty());
    }
}

/// A forward index and a backward index whose tables are brought to the same number from
/// the same attribute positions stay mirror images of each other.
pub proof fn law_mirror_ensure_culture(s: IndexModel, in_use: bool, count: int, positions: Seq<int>)
    requires
        0 <= count,
    ensures
        mirrored(ensure_culture(s, in_use, count, positions)) == ensure_culture(
            mirrored(s),
            in_use,
            count,
            positions,
        ),
{
    let l = mirrored(ensure_culture(s, in_use, count, positions));
    let r = ensure_culture(mirrored(s), in_use, count, positions);
    lemma_mirror_replayed(s.docs, positions, s.docs.len() as int);
    assert(l.docs =~= r.docs);
    let before = ensure_culture(s, in_use, count, positions).tables;
    if !in_use {
        assert(before.len() == 0);
        assert(l.tables =~= r.tables);
    } else if count <= s.tables.len() {
        assert(before == s.tables.take(count));
        assert(l.tables =~= r.tables);
    } else {
        let fresh = replayed(s.docs, positions, s.docs.len() as int);
        assert(before == s.tables + Seq::new((count - s.tables.len()) as nat, |t: int| fresh));
        assert(l.tables.len() == r.tables.len());
        assert forall|t: int| 0 <= t < l.tables.len() implies l.tables[t] == r.tables[t] by {
            if t < s.tables.len() {
                assert(before[t] == s.tables[t]);
            } else {
                assert(before[t] == fresh);
            }
        }
        assert(l.tables =~= r.tables);
    }
}

/// An index without documents and without tables is its own mirror image.
pub proof fn law_mirror_empty()
    ensures
        mirrored(IndexModel { docs: Seq::empty(), tables: Seq::empty() }) == (IndexModel {
            docs: Seq::empty(),
            tables: Seq::empty(),
        }),
{
    let e = IndexModel { docs: Seq::empty(), tables: Seq::empty() };
    assert(mirrored(e).docs =~= e.docs);
    assert(mirrored(e).tables =~= e.tables);
}

/// The row, with its word reversed.
pub open spec fn mirror_row(r: RowModel) -> RowModel {
    RowModel { word: r.word.reverse(), docs: r.docs }
}

/// The match, if there is one, with its word reversed.
pub open spec fn mirror_hit(h: Option<MatchModel>) -> Option<MatchModel> {
    match h {
        Some(m) => Some(MatchModel { word: m.word.reverse(), ..m }),
        None => None,
    }
}

/// A word starts with another exactly where its reverse ends with the other's reverse.
pub proof fn lemma_mirror_prefix(p: Word, w: Word)
    ensures
        is_suffix(p.reverse(), w.reverse()) == is_prefix(p, w),
        is_prefix(p.reverse(), w.reverse()) == is_suffix(p, w),
{
    if p.len() <= w.len() {
        let gap = w.len() - p.len();
        if is_prefix(p, w) {
            assert forall|j: int| 0 <= j < p.len() implies w.reverse()[gap + j] == p.reverse()[j] by {
                assert(w[p.len() - 1 - j] == p[p.len() - 1 - j]);
            }
        }
        if is_suffix(p.reverse(), w.reverse()) {
            assert forall|j: int| 0 <= j < p.len() implies w[j] == p[j] by {
                assert(w.reverse()[gap + (p.len() - 1 - j)] == p.reverse()[p.len() - 1 - j]);
            }
        }
        if is_suffix(p, w) {
            assert forall|j: int| 0 <= j < p.len() implies w.reverse()[j] == p.reverse()[j] by {
                assert(w[gap + (p.len() - 1 - j)] == p[p.len() - 1 - j]);
            }
        }
        if is_prefix(p.reverse(), w.reverse()) {
            assert forall|j: int| 0 <= j < p.len() implies w[gap + j] == p[j] by {
                assert(w.reverse()[p.len() - 1 - j] == p.reverse()[p.len() - 1 - j]);
            }
        }
    }
}

/// A word holds another exactly where its reverse holds the other's reverse.
pub proof fn lemma_mirror_infix(p: Word, w: Word)
    ensures
        is_infix(p.reverse(), w.reverse()) == is_infix(p, w),
{
    if is_infix(p, w) {
        let at = choose|at: int| occurs_at(p, w, at);
        let to = w.len() - p.len() - at;
        assert forall|j: int| 0 <= j < p.len() implies w.reverse()[to + j] == p.reverse()[j] by {
            assert(w[at + (p.len() - 1 - j)] == p[p.len() - 1 - j]);
        }
        assert(occurs_at(p.reverse(), w.reverse(), to));
    }
    if is_infix(p.reverse(), w.reverse()) {
        let at = choose|at: int| occurs_at(p.reverse(), w.reverse(), at);
        let to = w.len() - p.len() - at;
        assert forall|j: int| 0 <= j < p.len() implies w[to + j] == p[j] by {
            assert(w.reverse()[at + (p.len() - 1 - j)] == p.reverse()[p.len() - 1 - j]);
        }
        assert(occurs_at(p, w, to));
    }
}

/// A row of a backward table answers a query word as its mirror image in the forward
/// table does: by equality and as an infix alike, and as a prefix where the forward row
/// answers as a suffix, and the other way round. (Fuzzy matches by an automaton are not
/// mirrored: the automaton reads a stored word from its first character on.)
pub proof fn law_mirror_hits(r: RowModel, q: Word)
    ensures
        same_hit(q.reverse())(mirror_row(r)) == mirror_hit(same_hit(q)(r)),
        infix_hit(q.reverse())(mirror_row(r)) == mirror_hit(infix_hit(q)(r)),
        suffix_hit(q.reverse())(mirror_row(r)) == mirror_hit(prefix_hit(q)(r)),
        prefix_hit(q.reverse())(mirror_row(r)) == mirror_hit(suffix_hit(q)(r)),
{
    lemma_mirror_prefix(q, r.word);
    lemma_mirror_infix(q, r.word);
    if r.word.reverse() == q.reverse() {
        lemma_reverse_injective(r.word, q);
    }
    assert(spec_capped_len(r.word.reverse()) == spec_capped_len(r.word));
    assert(spec_capped_len(q.reverse()) == spec_capped_len(q));
}

} // verus!
