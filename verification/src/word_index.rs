//! The word table: the indexed words in ascending order, each with the documents that
//! hold it.

use crate::bitmap::{bitmap_insert, bitmap_is_empty, bitmap_new, bitmap_remove, bitmap_set};
use crate::direction::Direction;
use crate::doc_id::DocId;
use crate::fuzzy::{dfa_distance, dfa_eval, spec_create_dfa};
use crate::index_model::directional;
use crate::word_query_op::WordQueryOp;
use crate::match_distance::MatchDistance;
use crate::match_entry::{entries_view, MatchEntry, MatchModel};
use crate::sorted::{
    has_key, index_of, keys_sorted, lemma_index_of, lemma_insert, lemma_remove,
    lemma_update, search, Keyed,
};
use crate::word::{
    capped_len, contains, copy_of, ends_with, is_infix, is_prefix, is_suffix,
    lemma_prefix_interval, lemma_prefix_not_after, spec_capped_len, starts_with, word_lt,
};
use levenshtein_automata::DFA;
use roaring::RoaringBitmap;
use vstd::prelude::*;

verus! {

broadcast use vstd::seq_lib::group_seq_properties;

/// What a row says, as plain values.
pub ghost struct RowModel {
    pub word: Seq<char>,
    pub docs: Set<u32>,
}

/// The documents filed under `w`: none where `w` has no row.
pub open spec fn docs_in(m: Map<Seq<char>, Set<u32>>, w: Seq<char>) -> Set<u32> {
    if m.contains_key(w) {
        m[w]
    } else {
        Set::empty()
    }
}

/// The table after `d` is filed under `w`.
pub open spec fn table_add(m: Map<Seq<char>, Set<u32>>, w: Seq<char>, d: u32) -> Map<
    Seq<char>,
    Set<u32>,
> {
    m.insert(w, docs_in(m, w).insert(d))
}

/// The table after `d` is taken out from under `w`. A row that is left without documents
/// goes.
pub open spec fn table_del(m: Map<Seq<char>, Set<u32>>, w: Seq<char>, d: u32) -> Map<
    Seq<char>,
    Set<u32>,
> {
    let rest = docs_in(m, w).remove(d);
    if rest == Set::<u32>::empty() {
        m.remove(w)
    } else {
        m.insert(w, rest)
    }
}

/// The distance of a match by equality, prefix, suffix or infix: how much longer the row's
/// word is than the query word, both lengths capped at 255.
pub open spec fn length_gap(row: Seq<char>, query: Seq<char>) -> u8 {
    (spec_capped_len(row) - spec_capped_len(query)) as u8
}

/// The distance of a fuzzy match: the difference of the two lengths (the row's capped at
/// 255) plus the edits that the automaton counted, and at most 255.
pub open spec fn fuzzy_gap(row: Seq<char>, query_len: u8, edits: u8) -> u8 {
    let n = spec_capped_len(row);
    let gap = if n >= query_len {
        n - query_len
    } else {
        query_len - n
    };
    if gap + edits > 255 {
        255u8
    } else {
        (gap + edits) as u8
    }
}

/// A match of row `r` at distance `distance`.
pub open spec fn hit(r: RowModel, distance: u8) -> MatchModel {
    MatchModel { distance, word: r.word, docs: r.docs }
}

/// The match, if any, of a row against the query word `q` taken as the whole word.
pub open spec fn same_hit(q: Seq<char>) -> spec_fn(RowModel) -> Option<MatchModel> {
    |r: RowModel|
        if r.word == q {
            Some(hit(r, 0))
        } else {
            None
        }
}

/// The match, if any, of a row against the query word `q` taken as a prefix.
pub open spec fn prefix_hit(q: Seq<char>) -> spec_fn(RowModel) -> Option<MatchModel> {
    |r: RowModel|
        if is_prefix(q, r.word) {
            Some(hit(r, length_gap(r.word, q)))
        } else {
            None
        }
}

/// The match, if any, of a row against the query word `q` taken as a suffix.
pub open spec fn suffix_hit(q: Seq<char>) -> spec_fn(RowModel) -> Option<MatchModel> {
    |r: RowModel|
        if is_suffix(q, r.word) {
            Some(hit(r, length_gap(r.word, q)))
        } else {
            None
        }
}

/// The match, if any, of a row against the query word `q` taken as an infix.
pub open spec fn infix_hit(q: Seq<char>) -> spec_fn(RowModel) -> Option<MatchModel> {
    |r: RowModel|
        if is_infix(q, r.word) {
            Some(hit(r, length_gap(r.word, q)))
        } else {
            None
        }
}

/// The match, if any, of a row against an automaton made for a query word of
/// `query_len` characters: none where the automaton answers "at least".
pub open spec fn fuzzy_hit(dfa: &DFA, query_len: u8) -> spec_fn(RowModel) -> Option<MatchModel> {
    |r: RowModel|
        match dfa_distance(dfa, r.word) {
            Some(edits) => Some(hit(r, fuzzy_gap(r.word, query_len, edits))),
            None => None,
        }
}

/// What a query word finds in the rows of a table of the given orientation.
///
/// The word is held against the rows as the index stores words: reversed in a backward
/// index, where a prefix of the word as written is a suffix of the stored word and the
/// two operators change places. A fuzzy word too short for an automaton is matched as a
/// prefix of the word as written.
pub open spec fn query_hits(
    rows: Seq<RowModel>,
    direction: Direction,
    op: WordQueryOp,
    word: Seq<char>,
) -> Seq<MatchModel> {
    let w = directional(word, direction);
    match op {
        WordQueryOp::Eq => rows.filter_map(same_hit(w)),
        WordQueryOp::Contains => rows.filter_map(infix_hit(w)),
        WordQueryOp::StartsWith => match direction {
            Direction::Forward => rows.filter_map(prefix_hit(w)),
            Direction::Backward => rows.filter_map(suffix_hit(w)),
        },
        WordQueryOp::EndsWith => match direction {
            Direction::Forward => rows.filter_map(suffix_hit(w)),
            Direction::Backward => rows.filter_map(prefix_hit(w)),
        },
        WordQueryOp::Fuzzy => match spec_create_dfa(w) {
            Some(dfa) => rows.filter_map(fuzzy_hit(&dfa, spec_capped_len(w))),
            None => match direction {
                Direction::Forward => rows.filter_map(prefix_hit(w)),
                Direction::Backward => rows.filter_map(suffix_hit(w)),
            },
        },
    }
}

/// Rows on which `f` finds nothing add nothing to a scan.
pub proof fn lemma_scan_skips<B>(rows: Seq<RowModel>, f: spec_fn(RowModel) -> Option<B>, a: int, b: int)
    requires
        0 <= a <= b <= rows.len(),
        forall|i: int| a <= i < b ==> f(#[trigger] rows[i]) is None,
    ensures
        rows.take(b).filter_map(f) == rows.take(a).filter_map(f),
    decreases b - a,
{
    if a < b {
        lemma_scan_skips(rows, f, a, b - 1);
        rows.lemma_filter_map_take_succ(f, b - 1);
    }
}

/// One word with the documents that hold it.
pub struct WordIndexRow {
    docs: RoaringBitmap,
    len: u8,
    word: Vec<char>,
}

impl Keyed for WordIndexRow {
    closed spec fn key(&self) -> Seq<char> {
        self.word@
    }

    fn key_ref(&self) -> (w: &Vec<char>) {
        &self.word
    }
}

impl View for WordIndexRow {
    type V = RowModel;

    closed spec fn view(&self) -> RowModel {
        RowModel { word: self.word@, docs: bitmap_set(&self.docs) }
    }
}

impl WordIndexRow {
    /// The stored length is the word's, capped.
    pub closed spec fn wf(&self) -> bool {
        self.len == spec_capped_len(self.word@)
    }

    /// A row for `word` that no document holds yet.
    fn new(word: Vec<char>) -> (r: Self)
        ensures
            r.wf(),
            r@ == (RowModel { word: word@, docs: Set::<u32>::empty() }),
            r.key() == word@,
    {
        let len = capped_len(&word);
        WordIndexRow { docs: bitmap_new(), len, word }
    }

    /// A match of this row at distance 0 plus what the row's word is longer than the
    /// query word.
    fn match_entry_eq_distance<'a>(&'a self, word_len: u8) -> (e: MatchEntry<'a>)
        requires
            self.wf(),
            word_len <= self.len,
        ensures
            e@ == hit(self@, (self.len - word_len) as u8),
    {
        MatchEntry { distance: MatchDistance(self.len - word_len), docs: &self.docs, word: &self.word }
    }
}

/// The indexed words of one culture, in ascending order.
pub struct WordIndex(pub(crate) Vec<WordIndexRow>);

impl View for WordIndex {
    type V = Map<Seq<char>, Set<u32>>;

    /// The documents of each indexed word.
    closed spec fn view(&self) -> Map<Seq<char>, Set<u32>> {
        Map::new(
            |w: Seq<char>| has_key(self.0@, w),
            |w: Seq<char>| bitmap_set(&self.0@[index_of(self.0@, w)].docs),
        )
    }
}

impl WordIndex {
    /// The rows ascend strictly by word, and each holds at least one document.
    pub closed spec fn wf(&self) -> bool {
        &&& keys_sorted(self.0@)
        &&& forall|i: int| 0 <= i < self.0@.len() ==> (#[trigger] self.0@[i]).wf()
        &&& forall|i: int|
            0 <= i < self.0@.len() ==> bitmap_set(&(#[trigger] self.0@[i]).docs) != Set::<u32>::empty()
    }

    /// The rows, in ascending order of their words.
    pub closed spec fn rows(&self) -> Seq<RowModel> {
        self.0@.map_values(|r: WordIndexRow| r@)
    }

    /// The rows are the table: they ascend strictly by word, none is without documents,
    /// and each word's row holds the documents that the view gives for it.
    pub proof fn lemma_rows(&self)
        requires
            self.wf(),
        ensures
            forall|i: int, j: int|
                0 <= i < j < self.rows().len() ==> word_lt(
                    (#[trigger] self.rows()[i]).word,
                    (#[trigger] self.rows()[j]).word,
                ),
            forall|i: int|
                0 <= i < self.rows().len() ==> {
                    &&& self@.contains_key((#[trigger] self.rows()[i]).word)
                    &&& self@[self.rows()[i].word] == self.rows()[i].docs
                    &&& self.rows()[i].docs != Set::<u32>::empty()
                },
            forall|w: Seq<char>|
                self@.contains_key(w) ==> exists|i: int|
                    0 <= i < self.rows().len() && (#[trigger] self.rows()[i]).word == w,
    {
        let rs = self.rows();
        assert forall|i: int, j: int| 0 <= i < j < rs.len() implies word_lt(
            (#[trigger] rs[i]).word,
            (#[trigger] rs[j]).word,
        ) by {
            assert(word_lt(self.0@[i].key(), self.0@[j].key()));
        }
        assert forall|i: int| 0 <= i < rs.len() implies {
            &&& self@.contains_key((#[trigger] rs[i]).word)
            &&& self@[rs[i].word] == rs[i].docs
            &&& rs[i].docs != Set::<u32>::empty()
        } by {
            lemma_index_of(self.0@, i);
            assert(self.0@[i].wf());
        }
        assert forall|w: Seq<char>| self@.contains_key(w) implies exists|i: int|
            0 <= i < rs.len() && (#[trigger] rs[i]).word == w by {
            let i = index_of(self.0@, w);
            assert(rs[i].word == w);
        }
    }

    /// A table without rows.
    pub fn new() -> (r: Self)
        ensures
            r.wf(),
            r@ == Map::<Seq<char>, Set<u32>>::empty(),
            r.rows() == Seq::<RowModel>::empty(),
    {
        let r = WordIndex(Vec::new());
        assert(r@ =~= Map::<Seq<char>, Set<u32>>::empty());
        assert(r.rows() =~= Seq::<RowModel>::empty());
        r
    }

    /// The number of rows.
    pub fn len(&self) -> (n: usize)
        ensures
            n == self.rows().len(),
    {
        self.0.len()
    }

    /// The word of the row at position `i`.
    pub fn word_at(&self, i: usize) -> (w: &Vec<char>)
        requires
            i < self.rows().len(),
        ensures
            w@ == self.rows()[i as int].word,
    {
        &self.0[i].word
    }

    /// The documents of the row at position `i`.
    pub fn docs_at(&self, i: usize) -> (docs: &RoaringBitmap)
        requires
            i < self.rows().len(),
        ensures
            bitmap_set(docs) == self.rows()[i as int].docs,
    {
        &self.0[i].docs
    }

    /// Whether `word` has a row.
    pub fn contains_word(&self, word: &Vec<char>) -> (r: bool)
        requires
            self.wf(),
        ensures
            r == self@.contains_key(word@),
    {
        search(&self.0, word).is_ok()
    }

    /// Files `doc_id` under `word`, with a new row where the word has none. Returns whether
    /// the row is new.
    pub fn insert_word_doc(&mut self, word: &Vec<char>, doc_id: DocId) -> (created: bool)
        requires
            old(self).wf(),
        ensures
            final(self).wf(),
            final(self)@ == table_add(old(self)@, word@, doc_id.0),
            created == !old(self)@.contains_key(word@),
    {
        let found = search(&self.0, word);
        let (at, created) = match found {
            Ok(at) => (at, false),
            Err(at) => {
                let row = WordIndexRow::new(copy_of(word));
                proof {
                    lemma_insert(self.0@, at as int, row);
                }
                self.0.insert(at, row);
                (at, true)
            },
        };
        let ghost mid = self.0@;
        assert(keys_sorted(mid) && mid[at as int].key() == word@);
        assert(forall|i: int| 0 <= i < mid.len() ==> (#[trigger] mid[i]).wf());
        assert(forall|i: int|
            0 <= i < mid.len() && i != at ==> bitmap_set(&(#[trigger] mid[i]).docs) != Set::<
                u32,
            >::empty());
        assert(forall|w: Seq<char>| has_key(mid, w) <==> (w == word@ || has_key(old(self).0@, w)));
        assert(forall|w: Seq<char>| #[trigger]
            has_key(old(self).0@, w) ==> mid[index_of(mid, w)] == old(self).0@[index_of(
                old(self).0@,
                w,
            )]);
        assert(index_of(mid, word@) == at) by {
            lemma_index_of(mid, at as int);
        }
        let ghost before = bitmap_set(&mid[at as int].docs);
        assert(before == docs_in(old(self)@, word@));
        bitmap_insert(&mut self.0[at].docs, doc_id.0);
        proof {
            let now = self.0@;
            lemma_update(mid, at as int, now[at as int]);
            assert(now =~= mid.update(at as int, now[at as int]));
            assert(bitmap_set(&now[at as int].docs).contains(doc_id.0));
            assert(self@ =~= table_add(old(self)@, word@, doc_id.0));
        }
        created
    }

    /// Takes `doc_id` out from under `word`, and the row with it once no document is left.
    /// Returns whether the row was removed: `false` where the row keeps other documents,
    /// and where `word` had no row.
    pub fn remove_word_doc(&mut self, word: &Vec<char>, doc_id: DocId) -> (removed: bool)
        requires
            old(self).wf(),
        ensures
            final(self).wf(),
            final(self)@ == table_del(old(self)@, word@, doc_id.0),
            removed == (old(self)@.contains_key(word@) && !final(self)@.contains_key(word@)),
    {
        match search(&self.0, word) {
            Ok(at) => {
                let ghost before = self.0@;
                bitmap_remove(&mut self.0[at].docs, doc_id.0);
                let ghost mid = self.0@;
                proof {
                    lemma_update(before, at as int, mid[at as int]);
                    assert(mid =~= before.update(at as int, mid[at as int]));
                }
                let is_empty = bitmap_is_empty(&self.0[at].docs);
                if is_empty {
                    proof {
                        lemma_remove(mid, at as int);
                    }
                    self.0.remove(at);
                    assert(self@ =~= table_del(old(self)@, word@, doc_id.0));
                } else {
                    assert(self@ =~= table_del(old(self)@, word@, doc_id.0));
                }
                is_empty
            },
            Err(_) => {
                assert(docs_in(self@, word@).remove(doc_id.0) =~= Set::<u32>::empty());
                assert(self@ =~= table_del(old(self)@, word@, doc_id.0));
                false
            },
        }
    }

    /// Appends the row of `word`, if it has one, at distance 0.
    pub fn eq<'a>(&'a self, word: &Vec<char>, out: &mut Vec<MatchEntry<'a>>)
        requires
            self.wf(),
        ensures
            entries_view(final(out)@) == entries_view(old(out)@) + self.rows().filter_map(
                same_hit(word@),
            ),
            self@.contains_key(word@) ==> entries_view(final(out)@) == entries_view(old(out)@).push(
                MatchModel { distance: 0, word: word@, docs: self@[word@] },
            ),
            !self@.contains_key(word@) ==> entries_view(final(out)@) == entries_view(old(out)@),
    {
        let ghost f = same_hit(word@);
        let ghost rs = self.rows();
        match search(&self.0, word) {
            Ok(at) => {
                proof {
                    assert forall|i: int| 0 <= i < rs.len() && i != at implies f(
                        #[trigger] rs[i],
                    ) is None by {
                        if self.0@[i].key() == word@ {
                            crate::sorted::lemma_index_unique(self.0@, i, at as int);
                        }
                    }
                    lemma_scan_skips(rs, f, 0, at as int);
                    rs.lemma_filter_map_take_succ(f, at as int);
                    lemma_scan_skips(rs, f, at + 1, rs.len() as int);
                    assert(rs.take(rs.len() as int) == rs);
                    assert(rs.take(0).filter_map(f) == Seq::<MatchModel>::empty());
                    assert(self.0@[at as int].wf());
                }
                let row = &self.0[at];
                out.push(row.match_entry_eq_distance(row.len));
                assert(rs[at as int] == row@);
                assert(entries_view(out@) =~= entries_view(old(out)@) + rs.filter_map(f));
                assert(entries_view(out@) =~= entries_view(old(out)@).push(
                    MatchModel { distance: 0, word: word@, docs: self@[word@] },
                ));
            },
            Err(_) => {
                proof {
                    assert forall|i: int| 0 <= i < rs.len() implies f(#[trigger] rs[i]) is None by {
                        assert(self.0@[i].key() == rs[i].word);
                    }
                    lemma_scan_skips(rs, f, 0, rs.len() as int);
                    assert(rs.take(rs.len() as int) == rs);
                    assert(rs.take(0).filter_map(f) == Seq::<MatchModel>::empty());
                    assert(entries_view(out@) =~= entries_view(old(out)@) + rs.filter_map(f));
                }
            },
        }
    }

    /// Appends, in table order, the rows whose word starts with `word`, each at the
    /// distance of what it is longer.
    pub fn starts_with<'a>(&'a self, word: &Vec<char>, out: &mut Vec<MatchEntry<'a>>)
        requires
            self.wf(),
        ensures
            entries_view(final(out)@) == entries_view(old(out)@) + self.rows().filter_map(
                prefix_hit(word@),
            ),
    {
        let ghost f = prefix_hit(word@);
        let ghost rs = self.rows();
        let word_len = capped_len(word);
        let start = match search(&self.0, word) {
            Ok(at) => at,
            Err(at) => at,
        };
        proof {
            assert forall|i: int| 0 <= i < start implies f(#[trigger] rs[i]) is None by {
                assert(word_lt(self.0@[i].key(), word@));
                if is_prefix(word@, rs[i].word) {
                    lemma_prefix_not_after(word@, rs[i].word);
                }
            }
            lemma_scan_skips(rs, f, 0, start as int);
            assert(rs.take(0).filter_map(f) == Seq::<MatchModel>::empty());
            assert(entries_view(out@) =~= entries_view(old(out)@) + rs.take(start as int).filter_map(f));
        }
        let mut i = start;
        while i < self.0.len()
            invariant
                start <= i <= self.0.len(),
                self.wf(),
                rs == self.rows(),
                f == prefix_hit(word@),
                word_len == spec_capped_len(word@),
                forall|j: int| start <= j < self.0@.len() ==> self.0@[start as int].key() == word@
                    || word_lt(word@, #[trigger] self.0@[j].key()),
                entries_view(out@) == entries_view(old(out)@) + rs.take(i as int).filter_map(f),
            decreases self.0.len() - i,
        {
            let row = &self.0[i];
            if !starts_with(&row.word, word) {
                proof {
                    assert forall|j: int| i <= j < rs.len() implies f(#[trigger] rs[j]) is None by {
                        if j > i && is_prefix(word@, rs[j].word) {
                            assert(word_lt(self.0@[i as int].key(), self.0@[j].key()));
                            if i == start && self.0@[start as int].key() == word@ {
                                assert(is_prefix(word@, word@));
                            } else {
                                if i > start && self.0@[start as int].key() == word@ {
                                    assert(word_lt(self.0@[start as int].key(), self.0@[i as int].key()));
                                }
                                lemma_prefix_interval(word@, self.0@[i as int].key(), rs[j].word);
                            }
                        }
                    }
                    lemma_scan_skips(rs, f, i as int, rs.len() as int);
                    assert(rs.take(rs.len() as int) == rs);
                }
                return ;
            }
            proof {
                rs.lemma_filter_map_take_succ(f, i as int);
                assert(row.wf());
            }
            let ghost prev = out@;
            let e = row.match_entry_eq_distance(word_len);
            assert(rs[i as int] == row@);
            assert(f(rs[i as int]) == Some(e@));
            out.push(e);
            proof {
                assert(out@ == prev.push(e));
                assert(entries_view(out@) =~= entries_view(prev).push(e@));
                assert(entries_view(out@) =~= entries_view(old(out)@) + rs.take(i + 1).filter_map(f));
            }
            i += 1;
        }
        assert(rs.take(rs.len() as int) == rs);
    }

    /// Appends, in table order, the rows whose word ends with `word`, each at the distance
    /// of what it is longer.
    pub fn ends_with<'a>(&'a self, word: &Vec<char>, out: &mut Vec<MatchEntry<'a>>)
        requires
            self.wf(),
        ensures
            entries_view(final(out)@) == entries_view(old(out)@) + self.rows().filter_map(
                suffix_hit(word@),
            ),
    {
        let ghost f = suffix_hit(word@);
        let ghost rs = self.rows();
        let word_len = capped_len(word);
        assert(entries_view(out@) =~= entries_view(old(out)@) + rs.take(0).filter_map(f));
        let mut i: usize = 0;
        while i < self.0.len()
            invariant
                0 <= i <= self.0.len(),
                self.wf(),
                rs == self.rows(),
                f == suffix_hit(word@),
                word_len == spec_capped_len(word@),
                entries_view(out@) == entries_view(old(out)@) + rs.take(i as int).filter_map(f),
            decreases self.0.len() - i,
        {
            let row = &self.0[i];
            proof {
                rs.lemma_filter_map_take_succ(f, i as int);
                assert(row.wf());
            }
            let ghost prev = out@;
            assert(rs[i as int] == row@);
            if ends_with(&row.word, word) {
                let e = row.match_entry_eq_distance(word_len);
                assert(f(rs[i as int]) == Some(e@));
                out.push(e);
                assert(out@ == prev.push(e));
                assert(entries_view(out@) =~= entries_view(prev).push(e@));
            } else {
                assert(f(rs[i as int]) is None);
            }
            proof {
                assert(entries_view(out@) =~= entries_view(old(out)@) + rs.take(i + 1).filter_map(f));
            }
            i += 1;
        }
        assert(rs.take(rs.len() as int) == rs);
    }

    /// Appends, in table order, the rows whose word holds `word` somewhere, each at the
    /// distance of what it is longer.
    pub fn contains<'a>(&'a self, word: &Vec<char>, out: &mut Vec<MatchEntry<'a>>)
        requires
            self.wf(),
        ensures
            entries_view(final(out)@) == entries_view(old(out)@) + self.rows().filter_map(
                infix_hit(word@),
            ),
    {
        let ghost f = infix_hit(word@);
        let ghost rs = self.rows();
        let word_len = capped_len(word);
        assert(entries_view(out@) =~= entries_view(old(out)@) + rs.take(0).filter_map(f));
        let mut i: usize = 0;
        while i < self.0.len()
            invariant
                0 <= i <= self.0.len(),
                self.wf(),
                rs == self.rows(),
                f == infix_hit(word@),
                word_len == spec_capped_len(word@),
                entries_view(out@) == entries_view(old(out)@) + rs.take(i as int).filter_map(f),
            decreases self.0.len() - i,
        {
            let row = &self.0[i];
            proof {
                rs.lemma_filter_map_take_succ(f, i as int);
                assert(row.wf());
            }
            let ghost prev = out@;
            assert(rs[i as int] == row@);
            if contains(&row.word, word) {
                proof {
                    let at = choose|at: int| crate::word::occurs_at(word@, row.word@, at);
                    assert(word@.len() <= row.word@.len());
                }
                let e = row.match_entry_eq_distance(word_len);
                assert(f(rs[i as int]) == Some(e@));
                out.push(e);
                assert(out@ == prev.push(e));
                assert(entries_view(out@) =~= entries_view(prev).push(e@));
            } else {
                assert(f(rs[i as int]) is None);
            }
            proof {
                assert(entries_view(out@) =~= entries_view(old(out)@) + rs.take(i + 1).filter_map(f));
            }
            i += 1;
        }
        assert(rs.take(rs.len() as int) == rs);
    }

    /// Appends, in table order, the rows on which the automaton answers an exact number of
    /// edits, each at the distance of that number plus the difference of the lengths. A
    /// row on which it answers "at least" is no match.
    pub fn fuzzy<'a>(&'a self, dfa: &DFA, word_len: u8, out: &mut Vec<MatchEntry<'a>>)
        requires
            self.wf(),
        ensures
            entries_view(final(out)@) == entries_view(old(out)@) + self.rows().filter_map(
                fuzzy_hit(dfa, word_len),
            ),
            forall|k: int|
                old(out)@.len() <= k < final(out)@.len() ==> dfa_distance(
                    dfa,
                    (#[trigger] final(out)@[k])@.word,
                ) is Some,
    {
        let ghost f = fuzzy_hit(dfa, word_len);
        let ghost rs = self.rows();
        assert(entries_view(out@) =~= entries_view(old(out)@) + rs.take(0).filter_map(f));
        let mut i: usize = 0;
        while i < self.0.len()
            invariant
                0 <= i <= self.0.len(),
                self.wf(),
                rs == self.rows(),
                f == fuzzy_hit(dfa, word_len),
                entries_view(out@) == entries_view(old(out)@) + rs.take(i as int).filter_map(f),
                old(out)@.len() <= out@.len(),
                forall|k: int|
                    old(out)@.len() <= k < out@.len() ==> dfa_distance(dfa, (#[trigger] out@[k])@.word)
                        is Some,
            decreases self.0.len() - i,
        {
            let row = &self.0[i];
            proof {
                rs.lemma_filter_map_take_succ(f, i as int);
                assert(row.wf());
            }
            let ghost prev = out@;
            assert(rs[i as int] == row@);
            match dfa_eval(dfa, &row.word) {
                Some(edits) => {
                    let gap = if row.len >= word_len {
                        row.len - word_len
                    } else {
                        word_len - row.len
                    };
                    let distance = gap.saturating_add(edits);
                    let e = MatchEntry {
                        distance: MatchDistance(distance),
                        docs: &row.docs,
                        word: &row.word,
                    };
                    assert(f(rs[i as int]) == Some(e@));
                    out.push(e);
                    assert(out@ == prev.push(e));
                    assert(entries_view(out@) =~= entries_view(prev).push(e@));
                },
                None => {
                    assert(f(rs[i as int]) is None);
                },
            }
            proof {
                assert(entries_view(out@) =~= entries_view(old(out)@) + rs.take(i + 1).filter_map(f));
            }
            i += 1;
        }
        assert(rs.take(rs.len() as int) == rs);
    }
}

} // verus!
