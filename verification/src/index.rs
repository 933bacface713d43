//! One orientation of the inverted index: the record of each document, the word table of
//! each culture, and the interner that the tables share.

use crate::attr_map::{
    attr_entries, count_cultures, culture_count, cultureless_positions, direction_in_use, in_use,
    positions_without_culture, AttrMap,
};
use crate::chars::chars_of;
use crate::direction::Direction;
use crate::doc_id::DocId;
use crate::index_model::{
    all_words, any_selected, directional, directional_words, doc_has, dropped, grown,
    attr_dropped, doc_without_attr, lemma_dropped_push, lemma_table_add_all_step, lemma_tables_add_all_push, lemma_tables_del_all_concat,
    lemma_tables_del_all_push, replayed, selects, table_add_all, tables_add, tables_add_all,
    tables_del, tables_del_all, tables_without_attr, words_at, DocModel, IndexModel, Table, Word,
};
use crate::str_intern::StrIntern;
use crate::tokenizer::{tokenize, tokens};
use crate::fuzzy::spec_create_dfa;
use crate::word::{capped_len, copy_of, has_word, reversed, words_view};
use crate::match_entry::{entries_view, MatchEntry, MatchModel};
use crate::scan_laws::rows_ascend;
use crate::word_index::{query_hits, table_add, table_del, RowModel, WordIndex};
use crate::word_query::WordQuery;
use crate::word_query_op::WordQueryOp;
use vstd::prelude::*;

verus! {

broadcast use vstd::seq_lib::group_seq_properties;

/// The words of one attribute of one document, in the order of the value.
pub struct DocAttr {
    pub(crate) words: Vec<Vec<char>>,
}

impl View for DocAttr {
    type V = Seq<Seq<char>>;

    closed spec fn view(&self) -> Seq<Seq<char>> {
        words_view(self.words@)
    }
}

impl DocAttr {
    /// The words, in the order of the value.
    pub fn words(&self) -> (r: &Vec<Vec<char>>)
        ensures
            words_view(r@) == self@,
    {
        &self.words
    }
}

/// The record of one document: its attributes by position.
pub struct Doc {
    pub(crate) attrs: Vec<DocAttr>,
}

impl View for Doc {
    type V = DocModel;

    closed spec fn view(&self) -> DocModel {
        self.attrs@.map_values(|a: DocAttr| a@)
    }
}

impl Doc {
    /// A record without attributes.
    pub fn new() -> (r: Self)
        ensures
            r@ == Seq::<Seq<Seq<char>>>::empty(),
    {
        let r = Doc { attrs: Vec::new() };
        assert(r@ =~= Seq::<Seq<Seq<char>>>::empty());
        r
    }

    /// The attributes, by position.
    pub fn attrs(&self) -> (r: &Vec<DocAttr>)
        ensures
            r@.len() == self@.len(),
            forall|a: int| 0 <= a < r@.len() ==> (#[trigger] r@[a])@ == self@[a],
    {
        &self.attrs
    }

    /// Whether some attribute of the document holds `word`.
    pub fn contains_word(&self, word: &Vec<char>) -> (r: bool)
        ensures
            r == doc_has(self@, word@),
    {
        let mut a: usize = 0;
        while a < self.attrs.len()
            invariant
                0 <= a <= self.attrs.len(),
                forall|j: int| 0 <= j < a ==> !(#[trigger] self@[j]).contains(word@),
            decreases self.attrs.len() - a,
        {
            if has_word(&self.attrs[a].words, word) {
                assert(self@[a as int].contains(word@));
                return true;
            }
            a += 1;
        }
        false
    }

    /// Lengthens the record to `attribute_count` attributes, the new ones without words.
    pub fn ensure_attrs_size(&mut self, attribute_count: usize)
        ensures
            final(self)@ == grown(old(self)@, attribute_count as int, Seq::<Seq<char>>::empty()),
    {
        while self.attrs.len() < attribute_count
            invariant
                old(self)@.len() <= self@.len(),
                self@.len() <= attribute_count || self@.len() == old(self)@.len(),
                forall|j: int| 0 <= j < old(self)@.len() ==> self@[j] == old(self)@[j],
                forall|j: int|
                    old(self)@.len() <= j < self@.len() ==> self@[j] == Seq::<Seq<char>>::empty(),
            decreases attribute_count - self.attrs.len(),
        {
            let attr = DocAttr { words: Vec::new() };
            assert(attr@ =~= Seq::<Seq<char>>::empty());
            let ghost prev = self@;
            self.attrs.push(attr);
            assert(self@ =~= prev.push(Seq::<Seq<char>>::empty()));
        }
        assert(self@ =~= grown(old(self)@, attribute_count as int, Seq::<Seq<char>>::empty()));
    }

    /// Gives the attribute at position `attribute_index` the words `words`, and returns
    /// those that it had.
    pub fn replace_words(&mut self, attribute_index: usize, words: Vec<Vec<char>>) -> (previous: Vec<
        Vec<char>,
    >)
        requires
            attribute_index < old(self)@.len(),
        ensures
            final(self)@ == old(self)@.update(attribute_index as int, words_view(words@)),
            words_view(previous@) == old(self)@[attribute_index as int],
    {
        let mut taken = words;
        core::mem::swap(&mut self.attrs[attribute_index].words, &mut taken);
        assert(self@ =~= old(self)@.update(attribute_index as int, words_view(words@)));
        taken
    }

    /// Takes the attribute at position `attribute_index` out of the record and returns
    /// it. The attributes behind it move up by one.
    pub fn remove_attr(&mut self, attribute_index: usize) -> (r: Option<DocAttr>)
        ensures
            attribute_index < old(self)@.len() ==> r is Some && r->0@ == old(self)@[attribute_index as int]
                && final(self)@ == old(self)@.remove(attribute_index as int),
            attribute_index >= old(self)@.len() ==> r is None && final(self)@ == old(self)@,
    {
        if self.attrs.len() > attribute_index {
            let taken = self.attrs.remove(attribute_index);
            assert(self@ =~= old(self)@.remove(attribute_index as int));
            Some(taken)
        } else {
            None
        }
    }
}

/// Some table holds `w`.
pub open spec fn in_some_table(ts: Seq<Table>, w: Word) -> bool {
    exists|t: int| 0 <= t < ts.len() && (#[trigger] ts[t]).contains_key(w)
}

/// The position of the table that answers queries of the culture `culture`, among `n`
/// tables: the culture's own, else the first, else none.
pub open spec fn table_for(culture: u8, n: int) -> Option<int> {
    if culture < n {
        Some(culture as int)
    } else if n > 0 {
        Some(0)
    } else {
        None
    }
}

/// Appends what the query word finds in `word_index` when it is taken as an infix.
fn contains<'a>(direction: Direction, word_index: &'a WordIndex, q: &WordQuery, out: &mut Vec<MatchEntry<'a>>)
    requires
        word_index.wf(),
        q@.op == WordQueryOp::Contains,
    ensures
        entries_view(final(out)@) == entries_view(old(out)@) + query_hits(
            word_index.rows(),
            direction,
            q@.op,
            q@.word,
        ),
{
    word_index.contains(q.directional_word(direction), out);
}

/// Appends what the query word finds in `word_index` when it is taken as a suffix of the
/// word as written.
fn ends_with<'a>(direction: Direction, word_index: &'a WordIndex, q: &WordQuery, out: &mut Vec<MatchEntry<'a>>)
    requires
        word_index.wf(),
        q@.op == WordQueryOp::EndsWith,
    ensures
        entries_view(final(out)@) == entries_view(old(out)@) + query_hits(
            word_index.rows(),
            direction,
            q@.op,
            q@.word,
        ),
{
    match direction {
        Direction::Forward => word_index.ends_with(q.word(), out),
        Direction::Backward => word_index.starts_with(q.backward_word(), out),
    }
}

/// Appends what the query word finds in `word_index` when it is taken as a prefix of the
/// word as written.
fn starts_with<'a>(direction: Direction, word_index: &'a WordIndex, q: &WordQuery, out: &mut Vec<MatchEntry<'a>>)
    requires
        word_index.wf(),
        q@.op == WordQueryOp::StartsWith || (q@.op == WordQueryOp::Fuzzy && spec_create_dfa(
            directional(q@.word, direction),
        ) is None),
    ensures
        entries_view(final(out)@) == entries_view(old(out)@) + query_hits(
            word_index.rows(),
            direction,
            q@.op,
            q@.word,
        ),
{
    match direction {
        Direction::Forward => word_index.starts_with(q.word(), out),
        Direction::Backward => word_index.ends_with(q.backward_word(), out),
    }
}

/// Appends what the query word finds in `word_index` by fuzzy matching: by the automaton
/// of the word as the index stores it, or as a prefix where the word is too short for
/// one. The automaton is the one kept with the query word.
fn fuzzy<'a>(direction: Direction, word_index: &'a WordIndex, q: &WordQuery, out: &mut Vec<MatchEntry<'a>>)
    requires
        word_index.wf(),
        q@.op == WordQueryOp::Fuzzy,
    ensures
        entries_view(final(out)@) == entries_view(old(out)@) + query_hits(
            word_index.rows(),
            direction,
            q@.op,
            q@.word,
        ),
{
    match direction {
        Direction::Backward => match q.backward_dfa() {
            Some(dfa) => word_index.fuzzy(dfa, capped_len(q.backward_word()), out),
            None => starts_with(direction, word_index, q, out),
        },
        Direction::Forward => match q.dfa() {
            Some(dfa) => word_index.fuzzy(dfa, q.len(), out),
            None => starts_with(direction, word_index, q, out),
        },
    }
}

/// An index of one orientation.
pub struct Index {
    direction: Direction,
    docs: Vec<Doc>,
    per_culture: Vec<WordIndex>,
    word_intern: StrIntern,
}

impl View for Index {
    type V = IndexModel;

    closed spec fn view(&self) -> IndexModel {
        IndexModel {
            docs: self.docs@.map_values(|d: Doc| d@),
            tables: self.per_culture@.map_values(|t: WordIndex| t@),
        }
    }
}

impl Index {
    /// The orientation of the index.
    pub closed spec fn spec_direction(&self) -> Direction {
        self.direction
    }

    /// The words that the interner holds.
    pub closed spec fn interned(&self) -> Set<Word> {
        self.word_intern@
    }

    /// Everything that `wf` asks, except that `w` may be interned without a table that
    /// holds it.
    pub closed spec fn sound_but(&self, w: Word) -> bool {
        &&& forall|t: int| 0 <= t < self.per_culture@.len() ==> (#[trigger] self.per_culture@[t]).wf()
        &&& self.word_intern.wf()
        &&& self.docs@.len() <= u32::MAX + 1
        &&& forall|x: Word| x != w ==> (self.word_intern@.contains(x) <==> in_some_table(self@.tables, x))
        &&& in_some_table(self@.tables, w) ==> self.word_intern@.contains(w)
    }

    /// The index is well formed: each table ascends strictly and has no row without
    /// documents, a word is interned exactly where some table holds it, and the documents'
    /// positions are document ids.
    pub closed spec fn wf(&self) -> bool {
        &&& forall|t: int| 0 <= t < self.per_culture@.len() ==> (#[trigger] self.per_culture@[t]).wf()
        &&& self.word_intern.wf()
        &&& self.docs@.len() <= u32::MAX + 1
        &&& forall|x: Word| self.word_intern@.contains(x) <==> in_some_table(self@.tables, x)
    }

    /// In a well-formed index a word is interned exactly where some table holds it, and
    /// no table holds a word without documents.
    pub proof fn lemma_wf(&self)
        requires
            self.wf(),
        ensures
            forall|w: Word| self.interned().contains(w) <==> in_some_table(self@.tables, w),
            forall|t: int, w: Word|
                0 <= t < self@.tables.len() && (#[trigger] self@.tables[t]).contains_key(w)
                    ==> #[trigger] self@.tables[t][w] != Set::<u32>::empty(),
            self@.docs.len() <= u32::MAX + 1,
    {
        assert forall|t: int, w: Word|
            0 <= t < self@.tables.len() && (#[trigger] self@.tables[t]).contains_key(
                w,
            ) implies #[trigger] self@.tables[t][w] != Set::<u32>::empty() by {
            let table = self.per_culture@[t];
            assert(table.wf());
            table.lemma_rows();
            let i = choose|i: int| 0 <= i < table.rows().len() && (#[trigger] table.rows()[i]).word == w;
            assert(table@[table.rows()[i].word] == table.rows()[i].docs);
        }
    }

    /// In a well-formed index the rows of a table are the table in ascending order: they
    /// ascend strictly by word, each row holds the documents that the table files under
    /// its word, and every word of the table has its row.
    pub proof fn lemma_rows(&self, t: int)
        requires
            self.wf(),
            0 <= t < self@.tables.len(),
        ensures
            rows_ascend(self.table_rows(t)),
            forall|i: int|
                0 <= i < self.table_rows(t).len() ==> {
                    &&& self@.tables[t].contains_key((#[trigger] self.table_rows(t)[i]).word)
                    &&& self@.tables[t][self.table_rows(t)[i].word] == self.table_rows(t)[i].docs
                },
            forall|w: Word|
                self@.tables[t].contains_key(w) ==> exists|i: int|
                    0 <= i < self.table_rows(t).len() && (#[trigger] self.table_rows(t)[i]).word == w,
    {
        assert(self.per_culture@[t].wf());
        self.per_culture@[t].lemma_rows();
    }

    /// An index of the given orientation without documents and without tables.
    pub fn new(direction: Direction) -> (r: Self)
        ensures
            r.wf(),
            r.spec_direction() == direction,
            r@.docs == Seq::<DocModel>::empty(),
            r@.tables == Seq::<Table>::empty(),
    {
        let r = Index { direction, docs: Vec::new(), per_culture: Vec::new(), word_intern: StrIntern::new() };
        assert(r@.docs =~= Seq::<DocModel>::empty());
        assert(r@.tables =~= Seq::<Table>::empty());
        r
    }

    /// The orientation of the index.
    pub fn direction(&self) -> (r: Direction)
        ensures
            r == self.spec_direction(),
    {
        self.direction
    }

    /// The records of the documents, by document id.
    pub fn docs(&self) -> (r: &Vec<Doc>)
        ensures
            r@.len() == self@.docs.len(),
            forall|d: int| 0 <= d < r@.len() ==> (#[trigger] r@[d])@ == self@.docs[d],
    {
        &self.docs
    }

    /// The word tables, by culture.
    pub fn per_culture(&self) -> (r: &Vec<WordIndex>)
        ensures
            r@.len() == self@.tables.len(),
            forall|t: int| 0 <= t < r@.len() ==> (#[trigger] r@[t])@ == self@.tables[t],
            self.wf() ==> forall|t: int| 0 <= t < r@.len() ==> (#[trigger] r@[t]).wf(),
    {
        &self.per_culture
    }

    /// The interner.
    pub fn word_intern(&self) -> (r: &StrIntern)
        ensures
            r@ == self.interned(),
            self.wf() ==> r.wf(),
    {
        &self.word_intern
    }

    /// Files `doc_id` under `word` in the table at position `t`, and interns the word
    /// where the table had no row for it.
    fn file_word(&mut self, t: usize, word: &Vec<char>, doc_id: DocId)
        requires
            old(self).wf(),
            t < old(self)@.tables.len(),
        ensures
            final(self).wf(),
            final(self).spec_direction() == old(self).spec_direction(),
            final(self)@.docs == old(self)@.docs,
            final(self)@.tables == old(self)@.tables.update(
                t as int,
                table_add(old(self)@.tables[t as int], word@, doc_id.0),
            ),
    {
        let created = self.per_culture[t].insert_word_doc(word, doc_id);
        if created {
            self.word_intern.insert(word);
        }
        proof {
            let before = old(self)@.tables;
            let after = self@.tables;
            assert(after =~= before.update(t as int, table_add(before[t as int], word@, doc_id.0)));
            assert forall|x: Word| self.word_intern@.contains(x) <==> in_some_table(after, x) by {
                if in_some_table(after, x) {
                    let j = choose|j: int| 0 <= j < after.len() && (#[trigger] after[j]).contains_key(x);
                    if x != word@ {
                        assert(before[j].contains_key(x));
                    } else if !created {
                        assert(before[t as int].contains_key(x));
                    }
                }
                if self.word_intern@.contains(x) {
                    if x == word@ {
                        assert(after[t as int].contains_key(x));
                    } else {
                        let j = choose|j: int|
                            0 <= j < before.len() && (#[trigger] before[j]).contains_key(x);
                        assert(after[j].contains_key(x));
                    }
                }
            }
        }
    }

    /// Files `doc_id` under `word` in each table that `culture` selects.
    fn add_word(&mut self, culture: Option<u8>, word: &Vec<char>, doc_id: DocId)
        requires
            old(self).wf(),
        ensures
            final(self).wf(),
            final(self).spec_direction() == old(self).spec_direction(),
            final(self)@.docs == old(self)@.docs,
            final(self)@.tables == tables_add(old(self)@.tables, culture, word@, doc_id.0),
    {
        match culture {
            Some(c) => {
                let t = c as usize;
                if t < self.per_culture.len() {
                    self.file_word(t, word, doc_id);
                }
                assert(self@.tables =~= tables_add(old(self)@.tables, culture, word@, doc_id.0));
            },
            None => {
                let n = self.per_culture.len();
                let mut t: usize = 0;
                while t < n
                    invariant
                        0 <= t <= n,
                        n == old(self)@.tables.len(),
                        self.wf(),
                        self.spec_direction() == old(self).spec_direction(),
                        self@.docs == old(self)@.docs,
                        self@.tables.len() == n,
                        forall|j: int|
                            0 <= j < t ==> #[trigger] self@.tables[j] == table_add(
                                old(self)@.tables[j],
                                word@,
                                doc_id.0,
                            ),
                        forall|j: int| t <= j < n ==> #[trigger] self@.tables[j] == old(self)@.tables[j],
                    decreases n - t,
                {
                    self.file_word(t, word, doc_id);
                    t += 1;
                }
                assert(self@.tables =~= tables_add(old(self)@.tables, culture, word@, doc_id.0));
            },
        }
    }

    /// Takes `doc_id` out from under `word` in the table at position `t`. Returns whether
    /// the row of the word was removed. The interner is left as it is.
    fn unfile_word(&mut self, t: usize, word: &Vec<char>, doc_id: DocId) -> (removed: bool)
        requires
            old(self).sound_but(word@),
            t < old(self)@.tables.len(),
        ensures
            final(self).sound_but(word@),
            final(self).spec_direction() == old(self).spec_direction(),
            final(self).interned() == old(self).interned(),
            final(self)@.docs == old(self)@.docs,
            final(self)@.tables == old(self)@.tables.update(
                t as int,
                table_del(old(self)@.tables[t as int], word@, doc_id.0),
            ),
            removed == (old(self)@.tables[t as int].contains_key(word@) && !final(self)@.tables[t as int].contains_key(
                word@,
            )),
    {
        let removed = self.per_culture[t].remove_word_doc(word, doc_id);
        proof {
            let before = old(self)@.tables;
            let after = self@.tables;
            assert(after =~= before.update(t as int, table_del(before[t as int], word@, doc_id.0)));
            assert forall|x: Word| x != word@ implies (self.word_intern@.contains(x) <==> in_some_table(
                after,
                x,
            )) by {
                if in_some_table(after, x) {
                    let j = choose|j: int| 0 <= j < after.len() && (#[trigger] after[j]).contains_key(x);
                    assert(before[j].contains_key(x));
                }
                if in_some_table(before, x) {
                    let j = choose|j: int|
                        0 <= j < before.len() && (#[trigger] before[j]).contains_key(x);
                    assert(after[j].contains_key(x));
                }
            }
            if in_some_table(after, word@) {
                let j = choose|j: int| 0 <= j < after.len() && (#[trigger] after[j]).contains_key(word@);
                if j == t && !before[j].contains_key(word@) {
                    assert(Set::<u32>::empty().remove(doc_id.0) =~= Set::<u32>::empty());
                }
                assert(before[j].contains_key(word@));
            }
        }
        removed
    }

    /// Releases `word` from the interner unless some table still holds it.
    fn settle(&mut self, word: &Vec<char>)
        requires
            old(self).sound_but(word@),
        ensures
            final(self).wf(),
            final(self).spec_direction() == old(self).spec_direction(),
            final(self)@ == old(self)@,
    {
        let n = self.per_culture.len();
        let mut t: usize = 0;
        while t < n
            invariant
                0 <= t <= n,
                n == self.per_culture@.len(),
                self.sound_but(word@),
                self == old(self),
                forall|j: int| 0 <= j < t ==> !(#[trigger] self@.tables[j]).contains_key(word@),
            decreases n - t,
        {
            if self.per_culture[t].contains_word(word) {
                assert(self@.tables[t as int].contains_key(word@));
                return ;
            }
            t += 1;
        }
        self.word_intern.remove(word);
    }

    /// Takes `doc_id` out from under `word` in each table that `culture` selects, and
    /// releases the word from the interner once no table holds it.
    ///
    /// Where no row was removed the tables hold the word as before, and nothing is
    /// released. Where a row was removed the word is released only if every table is
    /// found to be without it: a table that was not visited, or in which the word never
    /// had a row, says nothing by itself.
    fn drop_word(&mut self, culture: Option<u8>, word: &Vec<char>, doc_id: DocId)
        requires
            old(self).wf(),
        ensures
            final(self).wf(),
            final(self).spec_direction() == old(self).spec_direction(),
            final(self)@.docs == old(self)@.docs,
            final(self)@.tables == tables_del(old(self)@.tables, culture, word@, doc_id.0),
    {
        let n = self.per_culture.len();
        let (from, to) = match culture {
            Some(c) => {
                let t = c as usize;
                if t < n {
                    (t, t + 1)
                } else {
                    (0, 0)
                }
            },
            None => (0, n),
        };
        let mut any_removed = false;
        let mut t: usize = from;
        while t < to
            invariant
                from <= t <= to <= n,
                from == to || from < to,
                n == old(self)@.tables.len(),
                forall|j: int| 0 <= j < n ==> (selects(culture, j) <==> from <= j < to),
                self.sound_but(word@),
                self.spec_direction() == old(self).spec_direction(),
                self.interned() == old(self).interned(),
                self@.docs == old(self)@.docs,
                self@.tables.len() == n,
                forall|j: int|
                    from <= j < t ==> #[trigger] self@.tables[j] == table_del(
                        old(self)@.tables[j],
                        word@,
                        doc_id.0,
                    ),
                forall|j: int|
                    0 <= j < n && !(from <= j < t) ==> #[trigger] self@.tables[j] == old(self)@.tables[j],
                !any_removed ==> forall|j: int|
                    0 <= j < n ==> (#[trigger] self@.tables[j]).contains_key(word@) == old(
                        self,
                    )@.tables[j].contains_key(word@),
            decreases to - t,
        {
            let ghost prev = self@.tables;
            let removed = self.unfile_word(t, word, doc_id);
            if removed {
                any_removed = true;
            }
            proof {
                if !any_removed {
                    assert forall|j: int| 0 <= j < n implies (#[trigger] self@.tables[j]).contains_key(word@)
                        == old(self)@.tables[j].contains_key(word@) by {
                        if j == t {
                            assert(prev[j] == old(self)@.tables[j]);
                            if !prev[j].contains_key(word@) {
                                assert(Set::<u32>::empty().remove(doc_id.0) =~= Set::<u32>::empty());
                            }
                        } else {
                            assert(self@.tables[j] == prev[j]);
                        }
                    }
                }
            }
            t += 1;
        }
        assert(self@.tables =~= tables_del(old(self)@.tables, culture, word@, doc_id.0));
        if any_removed {
            self.settle(word);
        } else {
            proof {
                let before = old(self)@.tables;
                let after = self@.tables;
                if in_some_table(before, word@) {
                    let j = choose|j: int| 0 <= j < before.len() && (#[trigger] before[j]).contains_key(word@);
                    assert(after[j].contains_key(word@));
                }
                if in_some_table(after, word@) {
                    let j = choose|j: int| 0 <= j < after.len() && (#[trigger] after[j]).contains_key(word@);
                    assert(before[j].contains_key(word@));
                }
            }
        }
    }

    /// The word as this index stores it: reversed in a backward index.
    pub fn directional_word(&self, word: &Vec<char>) -> (r: Vec<char>)
        ensures
            r@ == directional(word@, self.spec_direction()),
    {
        match self.direction {
            Direction::Backward => reversed(word),
            Direction::Forward => copy_of(word),
        }
    }

    /// Whether some table takes the words of an attribute of the given culture.
    fn has_table_for(&self, culture: Option<u8>) -> (r: bool)
        ensures
            r == any_selected(culture, self@.tables.len() as int),
    {
        match culture {
            Some(c) => (c as usize) < self.per_culture.len(),
            None => self.per_culture.len() > 0,
        }
    }

    /// Files `doc_id` under the words of `value` in the tables that `culture` selects, and
    /// returns the words as the index stores them, in the order of the value. Without a
    /// selected table nothing is filed and no word is returned.
    pub fn insert_doc_word_list(&mut self, culture: Option<u8>, value: &str, doc_id: DocId) -> (list: Vec<
        Vec<char>,
    >)
        requires
            old(self).wf(),
        ensures
            final(self).wf(),
            final(self).spec_direction() == old(self).spec_direction(),
            final(self)@.docs == old(self)@.docs,
            words_view(list@) == if any_selected(culture, old(self)@.tables.len() as int) {
                directional_words(tokens(value@), old(self).spec_direction())
            } else {
                Seq::<Word>::empty()
            },
            final(self)@.tables == tables_add_all(
                old(self)@.tables,
                culture,
                words_view(list@),
                doc_id.0,
            ),
    {
        let mut word_list: Vec<Vec<char>> = Vec::new();
        proof {
            lemma_tables_add_all_push(old(self)@.tables, culture, Seq::empty(), Seq::empty(), doc_id.0);
            assert(words_view(word_list@) =~= Seq::<Word>::empty());
        }
        if !self.has_table_for(culture) {
            return word_list;
        }
        let chars = chars_of(value);
        let found = tokenize(&chars);
        let ghost all = directional_words(tokens(value@), self.spec_direction());
        let mut k: usize = 0;
        while k < found.len()
            invariant
                0 <= k <= found.len(),
                self.wf(),
                self.spec_direction() == old(self).spec_direction(),
                self@.docs == old(self)@.docs,
                words_view(found@) == tokens(value@),
                all == directional_words(tokens(value@), self.spec_direction()),
                words_view(word_list@) == all.take(k as int),
                self@.tables == tables_add_all(old(self)@.tables, culture, all.take(k as int), doc_id.0),
            decreases found.len() - k,
        {
            let word = self.directional_word(&found[k]);
            proof {
                assert(words_view(found@)[k as int] == found@[k as int]@);
                assert(all[k as int] == word@);
                assert(all.take(k + 1) =~= all.take(k as int).push(word@));
                lemma_tables_add_all_push(old(self)@.tables, culture, all.take(k as int), word@, doc_id.0);
            }
            self.add_word(culture, &word, doc_id);
            let ghost prev = word_list@;
            word_list.push(word);
            assert(words_view(word_list@) =~= words_view(prev).push(word@));
            k += 1;
        }
        assert(all.take(found@.len() as int) =~= all);
        word_list
    }

    /// Takes `doc_id` out from under those of `previous` that the document at position
    /// `d` no longer holds, in the tables that `culture` selects.
    fn drop_words_not_held(&mut self, culture: Option<u8>, previous: &Vec<Vec<char>>, d: usize, doc_id: DocId)
        requires
            old(self).wf(),
            d < old(self)@.docs.len(),
        ensures
            final(self).wf(),
            final(self).spec_direction() == old(self).spec_direction(),
            final(self)@.docs == old(self)@.docs,
            final(self)@.tables == tables_del_all(
                old(self)@.tables,
                culture,
                dropped(old(self)@.docs[d as int], words_view(previous@)),
                doc_id.0,
            ),
    {
        let ghost doc = self@.docs[d as int];
        let ghost all = words_view(previous@);
        proof {
            lemma_dropped_push(doc, Seq::empty(), Seq::empty());
            lemma_tables_del_all_push(old(self)@.tables, culture, Seq::empty(), Seq::empty(), doc_id.0);
            assert(all.take(0) =~= Seq::<Word>::empty());
        }
        let mut k: usize = 0;
        while k < previous.len()
            invariant
                0 <= k <= previous.len(),
                self.wf(),
                self.spec_direction() == old(self).spec_direction(),
                self@.docs == old(self)@.docs,
                d < self@.docs.len(),
                doc == old(self)@.docs[d as int],
                all == words_view(previous@),
                self@.tables == tables_del_all(
                    old(self)@.tables,
                    culture,
                    dropped(doc, all.take(k as int)),
                    doc_id.0,
                ),
            decreases previous.len() - k,
        {
            let word = &previous[k];
            proof {
                assert(all[k as int] == word@);
                assert(all.take(k + 1) =~= all.take(k as int).push(word@));
                lemma_dropped_push(doc, all.take(k as int), word@);
                lemma_tables_del_all_push(
                    old(self)@.tables,
                    culture,
                    dropped(doc, all.take(k as int)),
                    word@,
                    doc_id.0,
                );
            }
            if !self.docs[d].contains_word(word) {
                self.drop_word(culture, word, doc_id);
            }
            k += 1;
        }
        assert(all.take(previous@.len() as int) =~= all);
    }

    /// Replaces the value of attribute `attribute_index` of document `doc_id`, an
    /// attribute of the given culture, by `value`.
    ///
    /// The words of `value` are filed in the tables that the culture selects. The
    /// document's record is lengthened as far as needed, but nothing is recorded for a
    /// value without words where the document or the attribute has no record yet. Each
    /// word of the previous value that the document holds nowhere any more is taken out
    /// of the selected tables, and released once no table holds it.
    pub fn insert_doc_attribute(
        &mut self,
        doc_id: DocId,
        attribute_index: usize,
        culture: Option<u8>,
        value: &str,
    )
        requires
            old(self).wf(),
            attribute_index < usize::MAX,
        ensures
            final(self).wf(),
            final(self).spec_direction() == old(self).spec_direction(),
            final(self)@ == crate::index_model::insert_doc_attribute(
                old(self)@,
                doc_id.0,
                attribute_index as int,
                culture,
                directional_words(tokens(value@), old(self).spec_direction()),
            ),
    {
        let new_word_list = self.insert_doc_word_list(culture, value, doc_id);
        let d = doc_id.index();
        let ghost list = words_view(new_word_list@);
        let ghost filed = self@.tables;
        if new_word_list.len() == 0 {
            // Nothing is recorded for an empty value where there is no record yet.
            if d >= self.docs.len() {
                return ;
            }
            if attribute_index >= self.docs[d].attrs.len() {
                return ;
            }
        }
        while self.docs.len() <= d
            invariant
                self.wf(),
                self.spec_direction() == old(self).spec_direction(),
                self@.tables == filed,
                d == doc_id.0,
                old(self)@.docs.len() <= self@.docs.len(),
                self@.docs.len() <= d + 1 || self@.docs.len() == old(self)@.docs.len(),
                forall|j: int| 0 <= j < old(self)@.docs.len() ==> self@.docs[j] == old(self)@.docs[j],
                forall|j: int|
                    old(self)@.docs.len() <= j < self@.docs.len() ==> self@.docs[j] == Seq::<
                        Seq<Seq<char>>,
                    >::empty(),
            decreases d + 1 - self.docs.len(),
        {
            let ghost prev = self@.docs;
            self.docs.push(Doc::new());
            assert(self@.docs =~= prev.push(Seq::<Seq<Seq<char>>>::empty()));
            assert(self@.tables =~= filed);
        }
        let ghost docs = self@.docs;
        assert(docs =~= grown(old(self)@.docs, d + 1, Seq::<Seq<Seq<char>>>::empty()));
        self.docs[d].ensure_attrs_size(attribute_index + 1);
        let ghost attrs = self@.docs[d as int];
        let previous = self.docs[d].replace_words(attribute_index, new_word_list);
        proof {
            assert(self@.docs =~= docs.update(d as int, attrs.update(attribute_index as int, list)));
            assert(self@.tables =~= filed);
        }
        self.drop_words_not_held(culture, &previous, d, doc_id);
    }

    /// Takes `doc_id` out from under each of `words` in every table.
    fn remove_words_doc(&mut self, words: &Vec<Vec<char>>, doc_id: DocId)
        requires
            old(self).wf(),
        ensures
            final(self).wf(),
            final(self).spec_direction() == old(self).spec_direction(),
            final(self)@.docs == old(self)@.docs,
            final(self)@.tables == tables_del_all(
                old(self)@.tables,
                None,
                words_view(words@),
                doc_id.0,
            ),
    {
        let ghost all = words_view(words@);
        proof {
            lemma_tables_del_all_push(old(self)@.tables, None, Seq::empty(), Seq::empty(), doc_id.0);
            assert(all.take(0) =~= Seq::<Word>::empty());
        }
        let mut k: usize = 0;
        while k < words.len()
            invariant
                0 <= k <= words.len(),
                self.wf(),
                self.spec_direction() == old(self).spec_direction(),
                self@.docs == old(self)@.docs,
                all == words_view(words@),
                self@.tables == tables_del_all(old(self)@.tables, None, all.take(k as int), doc_id.0),
            decreases words.len() - k,
        {
            let word = &words[k];
            proof {
                assert(all[k as int] == word@);
                assert(all.take(k + 1) =~= all.take(k as int).push(word@));
                lemma_tables_del_all_push(old(self)@.tables, None, all.take(k as int), word@, doc_id.0);
            }
            self.drop_word(None, word, doc_id);
            k += 1;
        }
        assert(all.take(words@.len() as int) =~= all);
    }

    /// Removes document `doc_id`: its record becomes empty, and each of its words is
    /// taken out of every table and released once no table holds it. Nothing happens
    /// where the document has no record. The other documents keep their ids.
    pub fn remove_doc(&mut self, doc_id: DocId)
        requires
            old(self).wf(),
        ensures
            final(self).wf(),
            final(self).spec_direction() == old(self).spec_direction(),
            final(self)@ == crate::index_model::remove_doc(old(self)@, doc_id.0),
    {
        let d = doc_id.index();
        if d >= self.docs.len() {
            return ;
        }
        let mut doc = Doc::new();
        core::mem::swap(&mut self.docs[d], &mut doc);
        let ghost tables = self@.tables;
        proof {
            assert(self@.docs =~= old(self)@.docs.update(d as int, Seq::<Seq<Seq<char>>>::empty()));
            assert(self@.tables =~= old(self)@.tables);
            lemma_tables_del_all_push(tables, None, Seq::empty(), Seq::empty(), doc_id.0);
            assert(doc@.take(0) =~= Seq::<Seq<Seq<char>>>::empty());
        }
        let mut a: usize = 0;
        while a < doc.attrs.len()
            invariant
                0 <= a <= doc.attrs.len(),
                self.wf(),
                self.spec_direction() == old(self).spec_direction(),
                self@.docs == old(self)@.docs.update(d as int, Seq::<Seq<Seq<char>>>::empty()),
                doc@ == old(self)@.docs[d as int],
                tables == old(self)@.tables,
                self@.tables == tables_del_all(tables, None, all_words(doc@.take(a as int)), doc_id.0),
            decreases doc.attrs.len() - a,
        {
            proof {
                assert(doc@.take(a + 1).drop_last() =~= doc@.take(a as int));
                assert(doc@.take(a + 1).last() == doc@[a as int]);
                lemma_tables_del_all_concat(
                    tables,
                    None,
                    all_words(doc@.take(a as int)),
                    doc@[a as int],
                    doc_id.0,
                );
            }
            self.remove_words_doc(&doc.attrs[a].words, doc_id);
            a += 1;
        }
        assert(doc@.take(doc@.len() as int) =~= doc@);
    }

    /// Removes attribute position `attribute_index`, of an attribute of the given
    /// culture, from the record of every document; the attributes behind it move up by
    /// one. Each word that a document loses with it is taken out of the tables that the
    /// culture selects, and released once no table holds it.
    pub fn remove_attr(&mut self, attribute_index: usize, culture: Option<u8>)
        requires
            old(self).wf(),
        ensures
            final(self).wf(),
            final(self).spec_direction() == old(self).spec_direction(),
            final(self)@ == crate::index_model::remove_attr(old(self)@, attribute_index as int, culture),
    {
        let n = self.docs.len();
        let ghost a = attribute_index as int;
        let mut x: usize = 0;
        while x < n
            invariant
                0 <= x <= n,
                n == old(self)@.docs.len(),
                a == attribute_index,
                self.wf(),
                self.spec_direction() == old(self).spec_direction(),
                self@.docs.len() == n,
                forall|j: int| 0 <= j < x ==> #[trigger] self@.docs[j] == doc_without_attr(old(self)@.docs[j], a),
                forall|j: int| x <= j < n ==> #[trigger] self@.docs[j] == old(self)@.docs[j],
                self@.tables == tables_without_attr(old(self)@.docs, old(self)@.tables, a, culture, x as int),
            decreases n - x,
        {
            let ghost before = self@;
            let doc_id = DocId(x as u32);
            let ghost doc_before = self.docs@[x as int]@;
            assert(doc_before == before.docs[x as int]);
            assert(doc_before == old(self)@.docs[x as int]);
            let taken = self.docs[x].remove_attr(attribute_index);
            proof {
                assert(self.docs@[x as int]@ == doc_without_attr(doc_before, a));
                assert(self@.docs =~= before.docs.update(x as int, doc_without_attr(doc_before, a)));
                assert(self@.tables =~= before.tables);
                lemma_tables_del_all_push(before.tables, culture, Seq::empty(), Seq::empty(), doc_id.0);
            }
            match taken {
                Some(attr) => {
                    assert(attr@ == doc_before[a]);
                    self.drop_words_not_held(culture, &attr.words, x, doc_id);
                    assert(self@.tables == tables_del_all(
                        before.tables,
                        culture,
                        attr_dropped(doc_before, a),
                        doc_id.0,
                    ));
                },
                None => {
                    assert(attr_dropped(doc_before, a) == Seq::<Word>::empty());
                },
            }
            assert(self@.tables == tables_without_attr(
                old(self)@.docs,
                old(self)@.tables,
                a,
                culture,
                x + 1,
            ));
            x += 1;
        }
        assert(self@.docs =~= old(self)@.docs.map_values(|doc: DocModel| doc_without_attr(doc, a)));
    }

    /// Whether some table holds `word`.
    fn held(&self, word: &Vec<char>) -> (r: bool)
        requires
            forall|t: int| 0 <= t < self.per_culture@.len() ==> (#[trigger] self.per_culture@[t]).wf(),
        ensures
            r == in_some_table(self@.tables, word@),
    {
        let n = self.per_culture.len();
        let mut t: usize = 0;
        while t < n
            invariant
                0 <= t <= n,
                n == self.per_culture@.len(),
                forall|t: int| 0 <= t < self.per_culture@.len() ==> (#[trigger] self.per_culture@[t]).wf(),
                forall|j: int| 0 <= j < t ==> !(#[trigger] self@.tables[j]).contains_key(word@),
            decreases n - t,
        {
            if self.per_culture[t].contains_word(word) {
                assert(self@.tables[t as int].contains_key(word@));
                return true;
            }
            t += 1;
        }
        false
    }

    /// Removes the last table, and releases the words that only it held.
    fn pop_table(&mut self)
        requires
            old(self).wf(),
            old(self)@.tables.len() > 0,
        ensures
            final(self).wf(),
            final(self).spec_direction() == old(self).spec_direction(),
            final(self)@.docs == old(self)@.docs,
            final(self)@.tables == old(self)@.tables.drop_last(),
    {
        let popped = self.per_culture.pop();
        let table = popped.unwrap();
        let ghost rows = table.rows();
        proof {
            assert(self@.tables =~= old(self)@.tables.drop_last());
            assert(self@.docs =~= old(self)@.docs);
            assert(table == old(self).per_culture@[old(self).per_culture@.len() - 1]);
            assert(table.wf());
            table.lemma_rows();
            assert forall|x: Word| self.word_intern@.contains(x) implies in_some_table(self@.tables, x)
                || exists|j: int| 0 <= j < rows.len() && (#[trigger] rows[j]).word == x by {
                let t = choose|t: int|
                    0 <= t < old(self)@.tables.len() && (#[trigger] old(self)@.tables[t]).contains_key(x);
                if t < self@.tables.len() {
                    assert(self@.tables[t].contains_key(x));
                } else {
                    assert(table@.contains_key(x));
                }
            }
            assert forall|x: Word| in_some_table(self@.tables, x) implies self.word_intern@.contains(x) by {
                let t = choose|t: int| 0 <= t < self@.tables.len() && (#[trigger] self@.tables[t]).contains_key(x);
                assert(old(self)@.tables[t].contains_key(x));
            }
        }
        let n = table.len();
        let mut i: usize = 0;
        while i < n
            invariant
                0 <= i <= n,
                n == rows.len(),
                rows == table.rows(),
                self.spec_direction() == old(self).spec_direction(),
                self@.docs == old(self)@.docs,
                self@.tables == old(self)@.tables.drop_last(),
                forall|t: int| 0 <= t < self.per_culture@.len() ==> (#[trigger] self.per_culture@[t]).wf(),
                self.word_intern.wf(),
                self.docs@.len() <= u32::MAX + 1,
                forall|x: Word| in_some_table(self@.tables, x) ==> self.word_intern@.contains(x),
                forall|x: Word|
                    self.word_intern@.contains(x) ==> in_some_table(self@.tables, x) || exists|j: int|
                        i <= j < rows.len() && (#[trigger] rows[j]).word == x,
            decreases n - i,
        {
            let word = table.word_at(i);
            let ghost before = self.word_intern@;
            if !self.held(word) {
                self.word_intern.remove(word);
            }
            proof {
                assert forall|x: Word| self.word_intern@.contains(x) implies in_some_table(
                    self@.tables,
                    x,
                ) || exists|j: int| i + 1 <= j < rows.len() && (#[trigger] rows[j]).word == x by {
                    assert(before.contains(x));
                    if !in_some_table(self@.tables, x) {
                        let j = choose|j: int| i <= j < rows.len() && (#[trigger] rows[j]).word == x;
                        assert(j != i);
                    }
                }
            }
            i += 1;
        }
    }

    /// The words of `doc` at the attribute positions `positions`.
    fn gather_words(doc: &Doc, positions: &Vec<usize>) -> (r: Vec<Vec<char>>)
        ensures
            words_view(r@) == words_at(doc@, positions@.map_values(|p: usize| p as int)),
    {
        let ghost ps = positions@.map_values(|p: usize| p as int);
        let mut out: Vec<Vec<char>> = Vec::new();
        assert(ps.take(0) =~= Seq::<int>::empty());
        assert(words_view(out@) =~= Seq::<Word>::empty());
        let mut i: usize = 0;
        while i < positions.len()
            invariant
                0 <= i <= positions.len(),
                ps == positions@.map_values(|p: usize| p as int),
                words_view(out@) == words_at(doc@, ps.take(i as int)),
            decreases positions.len() - i,
        {
            let p = positions[i];
            proof {
                assert(ps.take(i + 1).drop_last() =~= ps.take(i as int));
                assert(ps.take(i + 1).last() == p as int);
            }
            if p < doc.attrs.len() {
                let words = &doc.attrs[p].words;
                let ghost start = out@;
                let mut k: usize = 0;
                while k < words.len()
                    invariant
                        0 <= k <= words.len(),
                        words_view(out@) == words_view(start) + words_view(words@).take(k as int),
                    decreases words.len() - k,
                {
                    let w = copy_of(&words[k]);
                    let ghost prev = out@;
                    out.push(w);
                    proof {
                        assert(words_view(out@) =~= words_view(prev).push(w@));
                        assert(words_view(words@).take(k + 1) =~= words_view(words@).take(k as int).push(
                            w@,
                        ));
                    }
                    k += 1;
                }
                assert(words_view(words@).take(words@.len() as int) =~= words_view(words@));
            }
            i += 1;
        }
        assert(ps.take(positions@.len() as int) =~= ps);
        out
    }

    /// Files `doc_id` under each of `words` in the tables from position `from` on.
    fn file_words_from(&mut self, from: usize, words: &Vec<Vec<char>>, doc_id: DocId)
        requires
            old(self).wf(),
            from <= old(self)@.tables.len(),
        ensures
            final(self).wf(),
            final(self).spec_direction() == old(self).spec_direction(),
            final(self)@.docs == old(self)@.docs,
            final(self)@.tables.len() == old(self)@.tables.len(),
            forall|t: int| 0 <= t < from ==> #[trigger] final(self)@.tables[t] == old(self)@.tables[t],
            forall|t: int|
                from <= t < old(self)@.tables.len() ==> #[trigger] final(self)@.tables[t] == table_add_all(
                    old(self)@.tables[t],
                    words_view(words@),
                    doc_id.0,
                ),
    {
        let ghost all = words_view(words@);
        let n = self.per_culture.len();
        let mut k: usize = 0;
        assert(all.take(0) =~= Seq::<Word>::empty());
        while k < words.len()
            invariant
                0 <= k <= words.len(),
                all == words_view(words@),
                self.wf(),
                self.spec_direction() == old(self).spec_direction(),
                self@.docs == old(self)@.docs,
                n == old(self)@.tables.len(),
                self@.tables.len() == n,
                from <= n,
                forall|t: int| 0 <= t < from ==> #[trigger] self@.tables[t] == old(self)@.tables[t],
                forall|t: int|
                    from <= t < n ==> #[trigger] self@.tables[t] == table_add_all(
                        old(self)@.tables[t],
                        all.take(k as int),
                        doc_id.0,
                    ),
            decreases words.len() - k,
        {
            let word = &words[k];
            let ghost start = self@.tables;
            let mut t: usize = from;
            while t < n
                invariant
                    from <= t <= n,
                    self.wf(),
                    self.spec_direction() == old(self).spec_direction(),
                    self@.docs == old(self)@.docs,
                    self@.tables.len() == n,
                    start.len() == n,
                    forall|j: int| 0 <= j < from ==> #[trigger] self@.tables[j] == start[j],
                    forall|j: int| from <= j < t ==> #[trigger] self@.tables[j] == table_add(start[j], word@, doc_id.0),
                    forall|j: int| t <= j < n ==> #[trigger] self@.tables[j] == start[j],
                decreases n - t,
            {
                self.file_word(t, word, doc_id);
                t += 1;
            }
            proof {
                assert(all[k as int] == word@);
                assert forall|t: int| from <= t < n implies #[trigger] self@.tables[t] == table_add_all(
                    old(self)@.tables[t],
                    all.take(k + 1),
                    doc_id.0,
                ) by {
                    lemma_table_add_all_step(old(self)@.tables[t], all, doc_id.0, k as int);
                }
            }
            k += 1;
        }
        assert(all.take(words@.len() as int) =~= all);
    }

    /// Brings the tables to the number that the attributes ask for.
    ///
    /// Without an attribute in this index's direction there is no table, and no word is
    /// interned. Otherwise there is one table for each culture up to the largest that
    /// any attribute has, and at least one. Surplus tables go, with the interned words
    /// that only they held. Each missing table is built from the words that the
    /// documents hold in the attributes of this direction without a culture.
    pub fn ensure_culture(&mut self, attrs: &AttrMap)
        requires
            old(self).wf(),
        ensures
            final(self).wf(),
            final(self).spec_direction() == old(self).spec_direction(),
            final(self)@ == crate::index_model::ensure_culture(
                old(self)@,
                direction_in_use(attr_entries(attrs), old(self).spec_direction()),
                culture_count(attr_entries(attrs)),
                cultureless_positions(attr_entries(attrs), old(self).spec_direction()),
            ),
    {
        if !in_use(attrs, self.direction) {
            self.per_culture = Vec::new();
            self.word_intern.clear();
            assert(self@.tables =~= Seq::<Table>::empty());
            assert(self@.docs =~= old(self)@.docs);
            assert forall|x: Word| !in_some_table(self@.tables, x) by {}
            return ;
        }
        let count = count_cultures(attrs);
        if self.per_culture.len() >= count {
            while self.per_culture.len() > count
                invariant
                    self.wf(),
                    self.spec_direction() == old(self).spec_direction(),
                    self@.docs == old(self)@.docs,
                    count <= self@.tables.len() <= old(self)@.tables.len(),
                    self@.tables == old(self)@.tables.take(self@.tables.len() as int),
                decreases self.per_culture.len(),
            {
                let ghost before = self@.tables;
                self.pop_table();
                assert(self@.tables =~= old(self)@.tables.take(before.len() - 1));
            }
            assert(old(self)@.tables.take(old(self)@.tables.len() as int) =~= old(self)@.tables);
            return ;
        }
        let first_new = self.per_culture.len();
        while self.per_culture.len() < count
            invariant
                self.wf(),
                self.spec_direction() == old(self).spec_direction(),
                self@.docs == old(self)@.docs,
                first_new == old(self)@.tables.len(),
                first_new <= self@.tables.len() <= count,
                forall|t: int| 0 <= t < first_new ==> #[trigger] self@.tables[t] == old(self)@.tables[t],
                forall|t: int|
                    first_new <= t < self@.tables.len() ==> #[trigger] self@.tables[t] == Map::<
                        Seq<char>,
                        Set<u32>,
                    >::empty(),
            decreases count - self.per_culture.len(),
        {
            let ghost before = self@.tables;
            self.per_culture.push(WordIndex::new());
            proof {
                assert(self@.tables =~= before.push(Map::<Seq<char>, Set<u32>>::empty()));
                assert(self@.docs =~= old(self)@.docs);
                assert forall|x: Word| in_some_table(self@.tables, x) <==> in_some_table(before, x) by {
                    if in_some_table(self@.tables, x) {
                        let t = choose|t: int|
                            0 <= t < self@.tables.len() && (#[trigger] self@.tables[t]).contains_key(x);
                        assert(before[t].contains_key(x));
                    }
                    if in_some_table(before, x) {
                        let t = choose|t: int| 0 <= t < before.len() && (#[trigger] before[t]).contains_key(x);
                        assert(self@.tables[t].contains_key(x));
                    }
                }
            }
        }
        let positions = positions_without_culture(attrs, self.direction);
        let ghost ps = positions@.map_values(|p: usize| p as int);
        let n = self.docs.len();
        let mut x: usize = 0;
        while x < n
            invariant
                0 <= x <= n,
                n == old(self)@.docs.len(),
                self.wf(),
                self.spec_direction() == old(self).spec_direction(),
                self@.docs == old(self)@.docs,
                first_new == old(self)@.tables.len(),
                self@.tables.len() == count,
                first_new < count,
                ps == positions@.map_values(|p: usize| p as int),
                forall|t: int| 0 <= t < first_new ==> #[trigger] self@.tables[t] == old(self)@.tables[t],
                forall|t: int|
                    first_new <= t < count ==> #[trigger] self@.tables[t] == replayed(
                        old(self)@.docs,
                        ps,
                        x as int,
                    ),
            decreases n - x,
        {
            let words = Self::gather_words(&self.docs[x], &positions);
            self.file_words_from(first_new, &words, DocId(x as u32));
            x += 1;
        }
        assert(self@.tables =~= old(self)@.tables + Seq::new(
            (count - first_new) as nat,
            |t: int| replayed(old(self)@.docs, ps, n as int),
        ));
    }

    /// The words, as the index stores them, of attribute `attr_index` of document `id`:
    /// none where the document or the attribute has no record.
    pub fn get_doc_attribute_words(&self, id: DocId, attr_index: usize) -> (r: Option<&Vec<Vec<char>>>)
        ensures
            match r {
                Some(words) => id.0 < self@.docs.len() && attr_index < self@.docs[id.0 as int].len()
                    && words_view(words@) == self@.docs[id.0 as int][attr_index as int],
                None => id.0 >= self@.docs.len() || attr_index >= self@.docs[id.0 as int].len(),
            },
    {
        let d = id.index();
        if d < self.docs.len() {
            let doc = &self.docs[d];
            if attr_index < doc.attrs.len() {
                return Some(&doc.attrs[attr_index].words);
            }
        }
        None
    }

    /// The rows of the table at position `t`, in ascending order of their words.
    pub closed spec fn table_rows(&self, t: int) -> Seq<RowModel> {
        self.per_culture@[t].rows()
    }

    /// What a query word finds in this index for the culture `culture`, in table order.
    pub open spec fn hits(&self, word: Word, op: WordQueryOp, culture: u8) -> Seq<MatchModel> {
        match table_for(culture, self@.tables.len() as int) {
            Some(t) => query_hits(self.table_rows(t), self.spec_direction(), op, word),
            None => Seq::empty(),
        }
    }

    /// Appends what the query word finds in the table of the culture `culture`, or in the
    /// first table where that culture has none. An index without tables answers nothing.
    pub fn query<'a>(&'a self, q: &WordQuery, culture: u8, out: &mut Vec<MatchEntry<'a>>)
        requires
            self.wf(),
        ensures
            entries_view(final(out)@) == entries_view(old(out)@) + self.hits(q@.word, q@.op, culture),
    {
        let c = culture as usize;
        let n = self.per_culture.len();
        if n == 0 {
            assert(entries_view(out@) + Seq::<MatchModel>::empty() =~= entries_view(out@));
            return ;
        }
        let t = if c < n {
            c
        } else {
            0
        };
        let word_index = &self.per_culture[t];
        match q.op() {
            WordQueryOp::Contains => contains(self.direction, word_index, q, out),
            WordQueryOp::EndsWith => ends_with(self.direction, word_index, q, out),
            WordQueryOp::Eq => word_index.eq(q.directional_word(self.direction), out),
            WordQueryOp::Fuzzy => fuzzy(self.direction, word_index, q, out),
            WordQueryOp::StartsWith => starts_with(self.direction, word_index, q, out),
        }
    }
}

} // verus!
