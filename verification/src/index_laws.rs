//! Laws of the index, proved of what its operations make of it.

use crate::index_model::{
    all_words, any_selected, doc_has, dropped, grown, insert_doc_attribute, lemma_table_add_all,
    lemma_table_del_all, remove_doc, selects, table_add_all, table_del_all, tables_add_all,
    tables_del_all, DocModel, IndexModel, Table, Word,
};
use crate::coverage::{covered, files, holds_for};
use crate::word_index::{docs_in, table_add, table_del};
use vstd::prelude::*;

verus! {

/// No word of the table is without documents.
pub open spec fn table_ok(m: Table) -> bool {
    forall|w: Word| m.contains_key(w) ==> #[trigger] m[w] != Set::<u32>::empty()
}

/// No word of any table is without documents.
pub open spec fn tables_ok(ts: Seq<Table>) -> bool {
    forall|t: int| 0 <= t < ts.len() ==> table_ok(#[trigger] ts[t])
}

/// No table holds document `d`.
pub open spec fn unfiled(ts: Seq<Table>, d: u32) -> bool {
    forall|t: int, w: Word| 0 <= t < ts.len() ==> !(#[trigger] docs_in(ts[t], w)).contains(d)
}

/// Two tables without empty rows that file the same documents under every word are the
/// same table.
pub proof fn lemma_table_ext(m1: Table, m2: Table)
    requires
        table_ok(m1),
        table_ok(m2),
        forall|w: Word| docs_in(m1, w) == docs_in(m2, w),
    ensures
        m1 == m2,
{
    assert forall|w: Word| m1.contains_key(w) == m2.contains_key(w) by {
        assert(docs_in(m1, w) == docs_in(m2, w));
        if m1.contains_key(w) {
            assert(m1[w] != Set::<u32>::empty());
        }
        if m2.contains_key(w) {
            assert(m2[w] != Set::<u32>::empty());
        }
    }
    assert forall|w: Word| m1.contains_key(w) implies m1[w] == m2[w] by {
        assert(docs_in(m1, w) == docs_in(m2, w));
    }
    assert(m1 =~= m2);
}

/// Filing a document keeps a table without empty rows.
pub proof fn lemma_table_add_ok(m: Table, w: Word, d: u32)
    requires
        table_ok(m),
    ensures
        table_ok(table_add(m, w, d)),
{
    let r = table_add(m, w, d);
    assert forall|x: Word| r.contains_key(x) implies #[trigger] r[x] != Set::<u32>::empty() by {
        if x == w {
            assert(r[x].contains(d));
        } else {
            assert(m.contains_key(x));
            assert(m[x] != Set::<u32>::empty());
        }
    }
}

/// Taking a document out keeps a table without empty rows.
pub proof fn lemma_table_del_ok(m: Table, w: Word, d: u32)
    requires
        table_ok(m),
    ensures
        table_ok(table_del(m, w, d)),
{
    let r = table_del(m, w, d);
    assert forall|x: Word| r.contains_key(x) implies #[trigger] r[x] != Set::<u32>::empty() by {
        if x != w {
            assert(m.contains_key(x));
            assert(m[x] != Set::<u32>::empty());
        }
    }
}

/// Filing a document under a list of words keeps a table without empty rows.
pub proof fn lemma_table_add_all_ok(m: Table, ws: Seq<Word>, d: u32)
    requires
        table_ok(m),
    ensures
        table_ok(table_add_all(m, ws, d)),
    decreases ws.len(),
{
    if ws.len() > 0 {
        lemma_table_add_all_ok(m, ws.drop_last(), d);
        lemma_table_add_ok(table_add_all(m, ws.drop_last(), d), ws.last(), d);
    }
}

/// Taking a document out from under a list of words keeps a table without empty rows.
pub proof fn lemma_table_del_all_ok(m: Table, ws: Seq<Word>, d: u32)
    requires
        table_ok(m),
    ensures
        table_ok(table_del_all(m, ws, d)),
    decreases ws.len(),
{
    if ws.len() > 0 {
        lemma_table_del_all_ok(m, ws.drop_last(), d);
        lemma_table_del_ok(table_del_all(m, ws.drop_last(), d), ws.last(), d);
    }
}

/// The words of a document are those that some attribute of it holds.
pub proof fn lemma_all_words(doc: DocModel, w: Word)
    ensures
        all_words(doc).contains(w) <==> doc_has(doc, w),
    decreases doc.len(),
{
    if doc.len() > 0 {
        let rest = doc.drop_last();
        lemma_all_words(rest, w);
        let words = all_words(rest) + doc.last();
        if words.contains(w) {
            let i = choose|i: int| 0 <= i < words.len() && words[i] == w;
            if i < all_words(rest).len() {
                assert(all_words(rest)[i] == w);
                let a = choose|a: int| 0 <= a < rest.len() && (#[trigger] rest[a]).contains(w);
                assert(doc[a].contains(w));
            } else {
                assert(doc.last()[i - all_words(rest).len()] == w);
                assert(doc[doc.len() - 1].contains(w));
            }
        }
        if doc_has(doc, w) {
            let a = choose|a: int| 0 <= a < doc.len() && (#[trigger] doc[a]).contains(w);
            if a < rest.len() {
                assert(rest[a].contains(w));
                let i = choose|i: int| 0 <= i < all_words(rest).len() && all_words(rest)[i] == w;
                assert(words[i] == w);
            } else {
                let k = choose|k: int| 0 <= k < doc.last().len() && doc.last()[k] == w;
                assert(words[all_words(rest).len() + k] == w);
            }
        }
    }
}

/// A table that did not hold a document is as before once the document was filed under
/// some words and then taken out from under words that include them.
pub proof fn lemma_filed_then_unfiled(m: Table, filed: Seq<Word>, removed: Seq<Word>, d: u32)
    requires
        table_ok(m),
        forall|w: Word| !(#[trigger] docs_in(m, w)).contains(d),
        forall|w: Word| filed.contains(w) ==> removed.contains(w),
    ensures
        table_del_all(table_add_all(m, filed, d), removed, d) == m,
{
    let m1 = table_add_all(m, filed, d);
    let m2 = table_del_all(m1, removed, d);
    lemma_table_add_all_ok(m, filed, d);
    lemma_table_del_all_ok(m1, removed, d);
    assert forall|w: Word| docs_in(m2, w) == docs_in(m, w) by {
        lemma_table_add_all(m, filed, d, w);
        lemma_table_del_all(m1, removed, d, w);
        assert(!docs_in(m, w).contains(d));
        assert(docs_in(m, w).insert(d).remove(d) =~= docs_in(m, w));
        assert(docs_in(m, w).remove(d) =~= docs_in(m, w));
    }
    lemma_table_ext(m2, m);
}

/// Removing a document and then giving it again the attribute value that it had restores
/// the index: where a document whose record is empty, and which no table holds, is given
/// an attribute value, then removed, and then given the same value again, the index is
/// as it was before the removal.
pub proof fn law_remove_then_insert(s: IndexModel, d: u32, a: int, culture: Option<u8>, words: Seq<Word>)
    requires
        0 <= a,
        tables_ok(s.tables),
        unfiled(s.tables, d),
        d >= s.docs.len() || s.docs[d as int].len() == 0,
    ensures
        insert_doc_attribute(remove_doc(insert_doc_attribute(s, d, a, culture, words), d), d, a, culture, words)
            == insert_doc_attribute(s, d, a, culture, words),
{
    let s1 = insert_doc_attribute(s, d, a, culture, words);
    let s2 = remove_doc(s1, d);
    let s3 = insert_doc_attribute(s2, d, a, culture, words);
    let n = s.tables.len() as int;
    let list = if any_selected(culture, n) {
        words
    } else {
        Seq::empty()
    };
    let filed = tables_add_all(s.tables, culture, list, d);
    let none = Seq::<Seq<Seq<char>>>::empty();
    if list.len() == 0 {
        assert(filed =~= s.tables);
        assert(s1.tables == s.tables && s1.docs == s.docs);
        if d < s.docs.len() {
            assert(all_words(s.docs[d as int]) =~= Seq::<Word>::empty());
            assert(tables_del_all(s.tables, None, Seq::empty(), d) =~= s.tables);
            assert(s.docs[d as int] =~= none);
            assert(s.docs.update(d as int, none) =~= s.docs);
        }
        assert(s2 == s1);
    } else {
        let docs = grown(s.docs, d + 1, none);
        assert(docs[d as int] =~= none);
        let attrs = grown(docs[d as int], a + 1, Seq::<Word>::empty());
        let doc = attrs.update(a, list);
        assert(attrs[a] =~= Seq::<Word>::empty());
        assert(dropped(doc, attrs[a]) =~= Seq::<Word>::empty());
        assert(tables_del_all(filed, culture, Seq::empty(), d) =~= filed);
        assert(s1.tables == filed);
        assert(s1.docs == docs.update(d as int, doc));
        // The removal takes the document out again.
        assert(s2.docs =~= docs.update(d as int, none));
        assert(s2.docs =~= docs);
        assert forall|t: int| 0 <= t < n implies #[trigger] s2.tables[t] == s.tables[t] by {
            assert(table_ok(s.tables[t]));
            assert forall|w: Word| !(#[trigger] docs_in(s.tables[t], w)).contains(d) by {}
            assert forall|w: Word| list.contains(w) implies all_words(doc).contains(w) by {
                lemma_all_words(doc, w);
                assert(doc[a].contains(w));
            }
            if selects(culture, t) {
                lemma_filed_then_unfiled(s.tables[t], list, all_words(doc), d);
            } else {
                lemma_filed_then_unfiled(s.tables[t], Seq::empty(), all_words(doc), d);
            }
        }
        assert(s2.tables =~= s.tables);
        // The second insertion does what the first did.
        assert(grown(s2.docs, d + 1, none) =~= docs);
        assert(s3.docs =~= s1.docs);
        assert(s3.tables =~= s1.tables);
    }
}

/// One of the first `k` attributes of the record `doc` holds `w` and has a culture that
/// selects the table at position `t`.
pub open spec fn filed_by(doc: DocModel, cs: Seq<Option<u8>>, t: int, w: Word, k: int) -> bool {
    exists|a: int| 0 <= a < k && a < doc.len() && a < cs.len() && (#[trigger] doc[a]).contains(w) && selects(cs[a], t)
}

/// Every table that holds document `d` under a word does so for an attribute of the
/// document that holds the word and whose culture selects the table.
pub open spec fn backed_doc(s: IndexModel, cs: Seq<Option<u8>>, d: u32) -> bool {
    forall|t: int, w: Word|
        0 <= t < s.tables.len() && (#[trigger] docs_in(s.tables[t], w)).contains(d) ==> holds_for(s, cs, t, d as int, w)
}

/// Every attribute of document `d` that holds words has a table for them.
pub open spec fn has_tables(s: IndexModel, cs: Seq<Option<u8>>, d: u32) -> bool {
    forall|a: int|
        0 <= a < s.docs[d as int].len() && (#[trigger] s.docs[d as int][a]).len() > 0 ==> a < cs.len() && any_selected(
            cs[a],
            s.tables.len() as int,
        )
}

/// The index after document `d` is given again the values of the first `k` attributes of
/// the record `doc`, one attribute after the other.
pub open spec fn reinserted(s: IndexModel, d: u32, cs: Seq<Option<u8>>, doc: DocModel, k: int) -> IndexModel
    decreases k,
{
    if k <= 0 {
        s
    } else {
        insert_doc_attribute(reinserted(s, d, cs, doc, k - 1), d, k - 1, cs[k - 1], doc[k - 1])
    }
}

/// The index `r` is the index `s` with document `d` removed and given again its first
/// `k` attributes: the other records are those of `s`, the record of `d` holds those of
/// the `k` attributes that have words, and a table holds `d` under a word exactly for
/// one of those attributes.
pub open spec fn restored_upto(s: IndexModel, r: IndexModel, d: u32, cs: Seq<Option<u8>>, k: int) -> bool {
    let doc = s.docs[d as int];
    &&& r.docs.len() == s.docs.len()
    &&& forall|x: int| 0 <= x < s.docs.len() && x != d ==> #[trigger] r.docs[x] == s.docs[x]
    &&& r.docs[d as int].len() <= k
    &&& forall|a: int| 0 <= a < r.docs[d as int].len() ==> #[trigger] r.docs[d as int][a] == doc[a]
    &&& forall|a: int| r.docs[d as int].len() <= a < k ==> (#[trigger] doc[a]).len() == 0
    &&& r.tables.len() == s.tables.len()
    &&& tables_ok(r.tables)
    &&& forall|t: int, w: Word|
        0 <= t < s.tables.len() ==> #[trigger] docs_in(r.tables[t], w) == if filed_by(doc, cs, t, w, k) {
            docs_in(s.tables[t], w).insert(d)
        } else {
            docs_in(s.tables[t], w).remove(d)
        }
}

/// Removing a document leaves the index as `restored_upto` describes it before any
/// attribute is given again.
proof fn lemma_restored_start(s: IndexModel, d: u32, cs: Seq<Option<u8>>)
    requires
        d < s.docs.len(),
        tables_ok(s.tables),
        backed_doc(s, cs, d),
    ensures
        restored_upto(s, remove_doc(s, d), d, cs, 0),
{
    let r = remove_doc(s, d);
    let doc = s.docs[d as int];
    let words = all_words(doc);
    assert forall|t: int| 0 <= t < r.tables.len() implies table_ok(#[trigger] r.tables[t]) by {
        assert(table_ok(s.tables[t]));
        lemma_table_del_all_ok(s.tables[t], words, d);
    }
    assert forall|t: int, w: Word| 0 <= t < s.tables.len() implies #[trigger] docs_in(r.tables[t], w) == docs_in(
        s.tables[t],
        w,
    ).remove(d) by {
        lemma_table_del_all(s.tables[t], words, d, w);
        if !words.contains(w) {
            lemma_all_words(doc, w);
            if docs_in(s.tables[t], w).contains(d) {
                assert(holds_for(s, cs, t, d as int, w));
            }
            assert(docs_in(s.tables[t], w).remove(d) =~= docs_in(s.tables[t], w));
        }
    }
}

/// Giving the next attribute again takes the index from what `restored_upto` describes
/// for `k` attributes to what it describes for `k + 1`.
proof fn lemma_restored_step(s: IndexModel, r: IndexModel, d: u32, cs: Seq<Option<u8>>, k: int)
    requires
        d < s.docs.len(),
        0 <= k < s.docs[d as int].len(),
        has_tables(s, cs, d),
        restored_upto(s, r, d, cs, k),
    ensures
        restored_upto(s, insert_doc_attribute(r, d, k, cs[k], s.docs[d as int][k]), d, cs, k + 1),
{
    let doc = s.docs[d as int];
    let words = doc[k];
    let culture = cs[k];
    let n = r.tables.len() as int;
    let next = insert_doc_attribute(r, d, k, culture, words);
    let list = if any_selected(culture, n) {
        words
    } else {
        Seq::empty()
    };
    assert(list =~= words) by {
        if words.len() > 0 {
            assert(any_selected(cs[k], s.tables.len() as int));
        }
    }
    let filed = tables_add_all(r.tables, culture, list, d);
    let none = Seq::<Seq<Seq<char>>>::empty();
    assert forall|t: int, w: Word| 0 <= t < n implies (filed_by(doc, cs, t, w, k + 1) <==> (filed_by(doc, cs, t, w, k)
        || (selects(culture, t) && words.contains(w)))) by {
        if filed_by(doc, cs, t, w, k + 1) {
            let a = choose|a: int|
                0 <= a < k + 1 && a < doc.len() && a < cs.len() && (#[trigger] doc[a]).contains(w) && selects(cs[a], t);
            if a < k {
                assert(filed_by(doc, cs, t, w, k));
            }
        }
        if filed_by(doc, cs, t, w, k) {
            let a = choose|a: int|
                0 <= a < k && a < doc.len() && a < cs.len() && (#[trigger] doc[a]).contains(w) && selects(cs[a], t);
            assert(a < k + 1);
        }
        if selects(culture, t) && words.contains(w) {
            assert(words.len() > 0);
            assert(doc[k].contains(w));
        }
    }
    if list.len() == 0 {
        assert(filed =~= r.tables);
        assert(next == r);
        assert forall|t: int, w: Word| 0 <= t < n implies !(selects(culture, t) && words.contains(w)) by {}
    } else {
        let docs = grown(r.docs, d + 1, none);
        assert(docs =~= r.docs);
        let attrs = grown(r.docs[d as int], k + 1, Seq::<Word>::empty());
        let record = attrs.update(k, list);
        assert(attrs[k] =~= Seq::<Word>::empty());
        assert(dropped(record, attrs[k]) =~= Seq::<Word>::empty());
        assert(tables_del_all(filed, culture, Seq::empty(), d) =~= filed);
        assert(next.tables == filed);
        assert(next.docs == docs.update(d as int, record));
        assert forall|a: int| 0 <= a < next.docs[d as int].len() implies #[trigger] next.docs[d as int][a] == doc[a] by {
            if a < r.docs[d as int].len() {
                assert(r.docs[d as int][a] == doc[a]);
            } else if a < k {
                assert(doc[a].len() == 0);
                assert(doc[a] =~= Seq::<Word>::empty());
            }
        }
        assert forall|t: int| 0 <= t < n implies table_ok(#[trigger] next.tables[t]) by {
            assert(table_ok(r.tables[t]));
            lemma_table_add_all_ok(r.tables[t], list, d);
        }
        assert forall|t: int, w: Word| 0 <= t < n implies #[trigger] docs_in(next.tables[t], w) == if filed_by(
            doc,
            cs,
            t,
            w,
            k + 1,
        ) {
            docs_in(s.tables[t], w).insert(d)
        } else {
            docs_in(s.tables[t], w).remove(d)
        } by {
            lemma_table_add_all(r.tables[t], list, d, w);
            let base = docs_in(s.tables[t], w);
            assert(docs_in(r.tables[t], w) == if filed_by(doc, cs, t, w, k) {
                base.insert(d)
            } else {
                base.remove(d)
            });
            assert(base.insert(d).insert(d) =~= base.insert(d));
            assert(base.remove(d).insert(d) =~= base.insert(d));
        }
    }
}

/// Giving a removed document its attributes again, one after the other, takes the index
/// to what `restored_upto` describes.
proof fn lemma_restored(s: IndexModel, d: u32, cs: Seq<Option<u8>>, k: int)
    requires
        d < s.docs.len(),
        0 <= k <= s.docs[d as int].len(),
        tables_ok(s.tables),
        backed_doc(s, cs, d),
        has_tables(s, cs, d),
    ensures
        restored_upto(s, reinserted(remove_doc(s, d), d, cs, s.docs[d as int], k), d, cs, k),
    decreases k,
{
    if k <= 0 {
        lemma_restored_start(s, d, cs);
    } else {
        lemma_restored(s, d, cs, k - 1);
        lemma_restored_step(s, reinserted(remove_doc(s, d), d, cs, s.docs[d as int], k - 1), d, cs, k - 1);
    }
}

/// Removing a document and then giving it again the value of each of its attributes
/// restores the index. Where every word of the records is filed, and the tables file
/// the document under no word that it does not hold, then after the removal and the
/// insertion of every attribute value in turn the tables are those before the removal,
/// no other record has changed, no document has another id, and the record of the
/// document holds every attribute's words as before; only attributes without words at
/// the end of the record may be missing from it.
pub proof fn law_remove_then_insert_all(s: IndexModel, d: u32, cs: Seq<Option<u8>>)
    requires
        d < s.docs.len(),
        s.docs.len() <= u32::MAX + 1,
        tables_ok(s.tables),
        covered(s, cs),
        backed_doc(s, cs, d),
        has_tables(s, cs, d),
    ensures
        ({
            let doc = s.docs[d as int];
            let r = reinserted(remove_doc(s, d), d, cs, doc, doc.len() as int);
            &&& r.tables == s.tables
            &&& r.docs.len() == s.docs.len()
            &&& forall|x: int| 0 <= x < s.docs.len() && x != d ==> #[trigger] r.docs[x] == s.docs[x]
            &&& r.docs[d as int].len() <= doc.len()
            &&& forall|a: int| 0 <= a < r.docs[d as int].len() ==> #[trigger] r.docs[d as int][a] == doc[a]
            &&& forall|a: int| r.docs[d as int].len() <= a < doc.len() ==> (#[trigger] doc[a]).len() == 0
        }),
{
    let doc = s.docs[d as int];
    let n = doc.len() as int;
    let r = reinserted(remove_doc(s, d), d, cs, doc, n);
    lemma_restored(s, d, cs, n);
    assert forall|t: int| 0 <= t < s.tables.len() implies #[trigger] r.tables[t] == s.tables[t] by {
        assert(table_ok(r.tables[t]));
        assert(table_ok(s.tables[t]));
        assert forall|w: Word| docs_in(r.tables[t], w) == docs_in(s.tables[t], w) by {
            let base = docs_in(s.tables[t], w);
            if filed_by(doc, cs, t, w, n) {
                let a = choose|a: int|
                    0 <= a < n && a < doc.len() && a < cs.len() && (#[trigger] doc[a]).contains(w) && selects(cs[a], t);
                let k = choose|k: int| 0 <= k < doc[a].len() && doc[a][k] == w;
                assert(files(s, t, d as int, a, k));
                assert(base.insert(d) =~= base);
            } else {
                if base.contains(d) {
                    assert(holds_for(s, cs, t, d as int, w));
                    let a = choose|a: int|
                        0 <= a < s.docs[d as int].len() && a < cs.len() && (#[trigger] s.docs[d as int][a]).contains(w)
                            && selects(cs[a], t);
                    assert(doc[a].contains(w));
                    assert(filed_by(doc, cs, t, w, n));
                }
                assert(base.remove(d) =~= base);
            }
        }
        lemma_table_ext(r.tables[t], s.tables[t]);
    }
    assert(r.tables =~= s.tables);
}

} // verus!
