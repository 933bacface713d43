//! What an index holds, as plain values, and what each of its operations makes of it.
//!
//! The executable index is proved to follow these functions step by step; the laws of the
//! index are proved of them.

use crate::direction::Direction;
use crate::word_index::{docs_in, table_add, table_del};
use vstd::prelude::*;

verus! {

/// A word.
pub type Word = Seq<char>;

/// A word table: the documents of each indexed word.
pub type Table = Map<Seq<char>, Set<u32>>;

/// A document's record: for each attribute position the words of its value, in order.
pub type DocModel = Seq<Seq<Seq<char>>>;

/// An index: the record of each document by its id, and the word table of each culture.
pub ghost struct IndexModel {
    pub docs: Seq<DocModel>,
    pub tables: Seq<Table>,
}

/// The word as an index of the given orientation stores it.
pub open spec fn directional(w: Word, direction: Direction) -> Word {
    match direction {
        Direction::Forward => w,
        Direction::Backward => w.reverse(),
    }
}

/// The words as an index of the given orientation stores them.
pub open spec fn directional_words(ws: Seq<Word>, direction: Direction) -> Seq<Word> {
    ws.map_values(|w: Word| directional(w, direction))
}

/// Some attribute of the document holds `w`.
pub open spec fn doc_has(doc: DocModel, w: Word) -> bool {
    exists|a: int| 0 <= a < doc.len() && (#[trigger] doc[a]).contains(w)
}

/// All the words of a document, attribute after attribute.
pub open spec fn all_words(doc: DocModel) -> Seq<Word>
    decreases doc.len(),
{
    if doc.len() == 0 {
        Seq::empty()
    } else {
        all_words(doc.drop_last()) + doc.last()
    }
}

/// Whether the table at position `t` takes the words of an attribute of the given
/// culture: the culture's own table, or every table for an attribute without a culture.
pub open spec fn selects(culture: Option<u8>, t: int) -> bool {
    match culture {
        None => true,
        Some(c) => t == c,
    }
}

/// Whether any of `n` tables takes the words of an attribute of the given culture.
pub open spec fn any_selected(culture: Option<u8>, n: int) -> bool {
    match culture {
        None => n > 0,
        Some(c) => c < n,
    }
}

/// The table after `d` is filed under each of `ws`, in order.
pub open spec fn table_add_all(m: Table, ws: Seq<Word>, d: u32) -> Table
    decreases ws.len(),
{
    if ws.len() == 0 {
        m
    } else {
        table_add(table_add_all(m, ws.drop_last(), d), ws.last(), d)
    }
}

/// The table after `d` is taken out from under each of `ws`, in order.
pub open spec fn table_del_all(m: Table, ws: Seq<Word>, d: u32) -> Table
    decreases ws.len(),
{
    if ws.len() == 0 {
        m
    } else {
        table_del(table_del_all(m, ws.drop_last(), d), ws.last(), d)
    }
}

/// The tables after `d` is filed under `w` in those that `culture` selects.
pub open spec fn tables_add(ts: Seq<Table>, culture: Option<u8>, w: Word, d: u32) -> Seq<Table> {
    Seq::new(
        ts.len(),
        |t: int|
            if selects(culture, t) {
                table_add(ts[t], w, d)
            } else {
                ts[t]
            },
    )
}

/// The tables after `d` is taken out from under `w` in those that `culture` selects.
pub open spec fn tables_del(ts: Seq<Table>, culture: Option<u8>, w: Word, d: u32) -> Seq<Table> {
    Seq::new(
        ts.len(),
        |t: int|
            if selects(culture, t) {
                table_del(ts[t], w, d)
            } else {
                ts[t]
            },
    )
}

/// The tables after `d` is filed under each of `ws` in those that `culture` selects.
pub open spec fn tables_add_all(ts: Seq<Table>, culture: Option<u8>, ws: Seq<Word>, d: u32) -> Seq<
    Table,
> {
    Seq::new(
        ts.len(),
        |t: int|
            if selects(culture, t) {
                table_add_all(ts[t], ws, d)
            } else {
                ts[t]
            },
    )
}

/// The tables after `d` is taken out from under each of `ws` in those that `culture`
/// selects.
pub open spec fn tables_del_all(ts: Seq<Table>, culture: Option<u8>, ws: Seq<Word>, d: u32) -> Seq<
    Table,
> {
    Seq::new(
        ts.len(),
        |t: int|
            if selects(culture, t) {
                table_del_all(ts[t], ws, d)
            } else {
                ts[t]
            },
    )
}

/// `s`, lengthened to `n` items with `fill` where it is shorter.
pub open spec fn grown<T>(s: Seq<T>, n: int, fill: T) -> Seq<T> {
    if s.len() >= n {
        s
    } else {
        s + Seq::new((n - s.len()) as nat, |i: int| fill)
    }
}

/// Those of `previous` that the document no longer holds.
pub open spec fn dropped(doc: DocModel, previous: Seq<Word>) -> Seq<Word> {
    previous.filter(|w: Word| !doc_has(doc, w))
}

/// The index after the value of attribute `a` of document `d` is replaced by one whose
/// words are `words`.
///
/// The words are filed in the tables that the attribute's culture selects; without such a
/// table the value counts as empty. The record of the document is lengthened as far as
/// needed, except that nothing is recorded for an empty value where the document or the
/// attribute has no record yet. Each word of the previous value that the document holds
/// nowhere any more is taken out of the selected tables.
pub open spec fn insert_doc_attribute(
    s: IndexModel,
    d: u32,
    a: int,
    culture: Option<u8>,
    words: Seq<Word>,
) -> IndexModel {
    let list = if any_selected(culture, s.tables.len() as int) {
        words
    } else {
        Seq::empty()
    };
    let filed = tables_add_all(s.tables, culture, list, d);
    if list.len() == 0 && (d >= s.docs.len() || a >= s.docs[d as int].len()) {
        IndexModel { docs: s.docs, tables: filed }
    } else {
        let docs = grown(s.docs, d + 1, Seq::empty());
        let attrs = grown(docs[d as int], a + 1, Seq::empty());
        let doc = attrs.update(a, list);
        IndexModel {
            docs: docs.update(d as int, doc),
            tables: tables_del_all(filed, culture, dropped(doc, attrs[a]), d),
        }
    }
}

/// The index after document `d` is removed: its record is empty, and each of its words
/// is taken out of every table. The other documents keep their ids.
pub open spec fn remove_doc(s: IndexModel, d: u32) -> IndexModel {
    if d >= s.docs.len() {
        s
    } else {
        IndexModel {
            docs: s.docs.update(d as int, Seq::empty()),
            tables: tables_del_all(s.tables, None, all_words(s.docs[d as int]), d),
        }
    }
}

/// A document's record after attribute position `a` is removed: the attributes behind it
/// move up by one.
pub open spec fn doc_without_attr(doc: DocModel, a: int) -> DocModel {
    if 0 <= a < doc.len() {
        doc.remove(a)
    } else {
        doc
    }
}

/// The words that a document loses with attribute position `a`: those of the attribute
/// that no other attribute of the document holds.
pub open spec fn attr_dropped(doc: DocModel, a: int) -> Seq<Word> {
    if 0 <= a < doc.len() {
        dropped(doc.remove(a), doc[a])
    } else {
        Seq::empty()
    }
}

/// The tables after the first `n` documents lost attribute position `a`.
pub open spec fn tables_without_attr(
    docs: Seq<DocModel>,
    ts: Seq<Table>,
    a: int,
    culture: Option<u8>,
    n: int,
) -> Seq<Table>
    decreases n,
{
    if n <= 0 {
        ts
    } else {
        tables_del_all(
            tables_without_attr(docs, ts, a, culture, n - 1),
            culture,
            attr_dropped(docs[n - 1], a),
            (n - 1) as u32,
        )
    }
}

/// The index after attribute position `a`, of the given culture, is removed from every
/// document.
pub open spec fn remove_attr(s: IndexModel, a: int, culture: Option<u8>) -> IndexModel {
    IndexModel {
        docs: s.docs.map_values(|doc: DocModel| doc_without_attr(doc, a)),
        tables: tables_without_attr(s.docs, s.tables, a, culture, s.docs.len() as int),
    }
}

/// The words of a document at the attribute positions `positions`, position after
/// position.
pub open spec fn words_at(doc: DocModel, positions: Seq<int>) -> Seq<Word>
    decreases positions.len(),
{
    if positions.len() == 0 {
        Seq::empty()
    } else {
        let rest = words_at(doc, positions.drop_last());
        let a = positions.last();
        if 0 <= a < doc.len() {
            rest + doc[a]
        } else {
            rest
        }
    }
}

/// The table that holds, for the first `n` documents, the words at the attribute
/// positions `positions`.
pub open spec fn replayed(docs: Seq<DocModel>, positions: Seq<int>, n: int) -> Table
    decreases n,
{
    if n <= 0 {
        Map::empty()
    } else {
        table_add_all(replayed(docs, positions, n - 1), words_at(docs[n - 1], positions), (n - 1) as u32)
    }
}

/// The index after its tables are brought to the number that the attributes ask for.
///
/// Without an attribute in the index's direction there is no table. Otherwise there are
/// `count` of them: surplus tables go, and each missing table is built from the words at
/// `positions`, the positions of the attributes without a culture.
pub open spec fn ensure_culture(s: IndexModel, in_use: bool, count: int, positions: Seq<int>) -> IndexModel {
    if !in_use {
        IndexModel { docs: s.docs, tables: Seq::empty() }
    } else if count <= s.tables.len() {
        IndexModel { docs: s.docs, tables: s.tables.take(count) }
    } else {
        IndexModel {
            docs: s.docs,
            tables: s.tables + Seq::new(
                (count - s.tables.len()) as nat,
                |t: int| replayed(s.docs, positions, s.docs.len() as int),
            ),
        }
    }
}

/// Filing a document under some words puts it under exactly those, and leaves every
/// other document where it was.
pub proof fn lemma_table_add_all(m: Table, ws: Seq<Word>, d: u32, w: Word)
    ensures
        docs_in(table_add_all(m, ws, d), w) == if ws.contains(w) {
            docs_in(m, w).insert(d)
        } else {
            docs_in(m, w)
        },
    decreases ws.len(),
{
    if ws.len() > 0 {
        let rest = ws.drop_last();
        lemma_table_add_all(m, rest, d, w);
        assert(ws.contains(w) <==> (rest.contains(w) || ws.last() == w)) by {
            if ws.contains(w) {
                let i = choose|i: int| 0 <= i < ws.len() && ws[i] == w;
                if i < ws.len() - 1 {
                    assert(rest[i] == w);
                }
            }
            if rest.contains(w) {
                let i = choose|i: int| 0 <= i < rest.len() && rest[i] == w;
                assert(ws[i] == w);
            }
            if ws.last() == w {
                assert(ws[ws.len() - 1] == w);
            }
        }
        assert(docs_in(m, w).insert(d).insert(d) =~= docs_in(m, w).insert(d));
    }
}

/// Taking a document out from under some words takes it out from under exactly those,
/// and leaves every other document where it was.
pub proof fn lemma_table_del_all(m: Table, ws: Seq<Word>, d: u32, w: Word)
    ensures
        docs_in(table_del_all(m, ws, d), w) =~= if ws.contains(w) {
            docs_in(m, w).remove(d)
        } else {
            docs_in(m, w)
        },
    decreases ws.len(),
{
    if ws.len() > 0 {
        let rest = ws.drop_last();
        lemma_table_del_all(m, rest, d, w);
        assert(ws.contains(w) <==> (rest.contains(w) || ws.last() == w)) by {
            if ws.contains(w) {
                let i = choose|i: int| 0 <= i < ws.len() && ws[i] == w;
                if i < ws.len() - 1 {
                    assert(rest[i] == w);
                }
            }
            if rest.contains(w) {
                let i = choose|i: int| 0 <= i < rest.len() && rest[i] == w;
                assert(ws[i] == w);
            }
            if ws.last() == w {
                assert(ws[ws.len() - 1] == w);
            }
        }
        assert(docs_in(m, w).remove(d).remove(d) =~= docs_in(m, w).remove(d));
    }
}

/// Filing under a longer list is filing under its front and then under its last word.
pub proof fn lemma_table_add_all_step(m: Table, ws: Seq<Word>, d: u32, k: int)
    requires
        0 <= k < ws.len(),
    ensures
        table_add_all(m, ws.take(k + 1), d) == table_add(table_add_all(m, ws.take(k), d), ws[k], d),
{
    assert(ws.take(k + 1).drop_last() =~= ws.take(k));
}

/// Taking out from under two lists in turn is taking out from under their concatenation.
pub proof fn lemma_table_del_all_concat(m: Table, a: Seq<Word>, b: Seq<Word>, d: u32)
    ensures
        table_del_all(m, a + b, d) == table_del_all(table_del_all(m, a, d), b, d),
    decreases b.len(),
{
    if b.len() == 0 {
        assert(a + b =~= a);
    } else {
        lemma_table_del_all_concat(m, a, b.drop_last(), d);
        assert((a + b).drop_last() =~= a + b.drop_last());
        assert((a + b).last() == b.last());
    }
}

/// Filing under two lists in turn is filing under their concatenation.
pub proof fn lemma_table_add_all_concat(m: Table, a: Seq<Word>, b: Seq<Word>, d: u32)
    ensures
        table_add_all(m, a + b, d) == table_add_all(table_add_all(m, a, d), b, d),
    decreases b.len(),
{
    if b.len() == 0 {
        assert(a + b =~= a);
    } else {
        lemma_table_add_all_concat(m, a, b.drop_last(), d);
        assert((a + b).drop_last() =~= a + b.drop_last());
        assert((a + b).last() == b.last());
    }
}

/// Filing under no word changes nothing, and filing under a list with one more word is
/// filing under the list and then under the word.
pub proof fn lemma_tables_add_all_push(ts: Seq<Table>, culture: Option<u8>, ws: Seq<Word>, w: Word, d: u32)
    ensures
        tables_add_all(ts, culture, Seq::empty(), d) == ts,
        tables_add_all(ts, culture, ws.push(w), d) == tables_add(
            tables_add_all(ts, culture, ws, d),
            culture,
            w,
            d,
        ),
{
    assert(tables_add_all(ts, culture, Seq::empty(), d) =~= ts);
    assert(ws.push(w).drop_last() =~= ws);
    assert(tables_add_all(ts, culture, ws.push(w), d) =~= tables_add(
        tables_add_all(ts, culture, ws, d),
        culture,
        w,
        d,
    ));
}

/// Taking out from under no word changes nothing, and taking out from under a list with
/// one more word is taking out from under the list and then from under the word.
pub proof fn lemma_tables_del_all_push(ts: Seq<Table>, culture: Option<u8>, ws: Seq<Word>, w: Word, d: u32)
    ensures
        tables_del_all(ts, culture, Seq::empty(), d) == ts,
        tables_del_all(ts, culture, ws.push(w), d) == tables_del(
            tables_del_all(ts, culture, ws, d),
            culture,
            w,
            d,
        ),
{
    assert(tables_del_all(ts, culture, Seq::empty(), d) =~= ts);
    assert(ws.push(w).drop_last() =~= ws);
    assert(tables_del_all(ts, culture, ws.push(w), d) =~= tables_del(
        tables_del_all(ts, culture, ws, d),
        culture,
        w,
        d,
    ));
}

/// Taking out from under two lists in turn is taking out from under their concatenation.
pub proof fn lemma_tables_del_all_concat(ts: Seq<Table>, culture: Option<u8>, a: Seq<Word>, b: Seq<Word>, d: u32)
    ensures
        tables_del_all(ts, culture, a + b, d) == tables_del_all(
            tables_del_all(ts, culture, a, d),
            culture,
            b,
            d,
        ),
{
    assert forall|t: int| 0 <= t < ts.len() implies #[trigger] tables_del_all(ts, culture, a + b, d)[t]
        == tables_del_all(tables_del_all(ts, culture, a, d), culture, b, d)[t] by {
        lemma_table_del_all_concat(ts[t], a, b, d);
    }
    assert(tables_del_all(ts, culture, a + b, d) =~= tables_del_all(
        tables_del_all(ts, culture, a, d),
        culture,
        b,
        d,
    ));
}

/// The words that a document no longer holds, of a list with one more word.
pub proof fn lemma_dropped_push(doc: DocModel, previous: Seq<Word>, w: Word)
    ensures
        dropped(doc, Seq::empty()) == Seq::<Word>::empty(),
        dropped(doc, previous.push(w)) == if doc_has(doc, w) {
            dropped(doc, previous)
        } else {
            dropped(doc, previous).push(w)
        },
{
    reveal(Seq::filter);
    assert(previous.push(w).drop_last() =~= previous);
}

} // verus!
