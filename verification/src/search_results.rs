//! The results of a query: the documents found, and for each index the best match of
//! each word that the query matched.

use crate::attr_map::{attr_map_len, attr_map_name_at, position_of};
use crate::bitmap::{bitmap_contains, bitmap_set};
use crate::chars::string_of;
use crate::direction::Direction;
use crate::doc_id::DocId;
use crate::index_results::IndexResults;
use crate::index_to_query::BestMatch;
use crate::searcher::{doc_attr_words, index_of_direction, Searcher};
use roaring::RoaringBitmap;
use vstd::prelude::*;

verus! {

broadcast use vstd::seq_lib::group_seq_properties;

/// A matched word of a document's attribute, as plain values: the word as it is indexed,
/// the distance of its best match, and the position of the query word that made it.
pub type WordMatch = (Seq<char>, u8, usize);

/// The matched words among `words`, in order, each with its best match.
pub open spec fn matched_words(lookup: Map<Seq<char>, BestMatch>, words: Seq<Seq<char>>) -> Seq<WordMatch> {
    words.filter_map(
        |w: Seq<char>|
            if lookup.contains_key(w) {
                Some((w, lookup[w].distance, lookup[w].query_index))
            } else {
                None
            },
    )
}

/// The results of a query.
pub struct SearchResults<'a> {
    backward: IndexResults<'a>,
    culture: u8,
    doc_ids: RoaringBitmap,
    forward: IndexResults<'a>,
    searcher: &'a Searcher,
}

impl<'a> SearchResults<'a> {
    /// The documents found.
    pub closed spec fn doc_set(&self) -> Set<u32> {
        bitmap_set(&self.doc_ids)
    }

    /// The culture of the query.
    pub closed spec fn spec_culture(&self) -> u8 {
        self.culture
    }

    /// The searcher that answered the query.
    pub closed spec fn spec_searcher(&self) -> Searcher {
        *self.searcher
    }

    /// The best match of each word of the index of the direction `direction` that the
    /// query matched.
    pub closed spec fn lookup(&self, direction: Direction) -> Map<Seq<char>, BestMatch> {
        match direction {
            Direction::Forward => self.forward.index_to_query@,
            Direction::Backward => self.backward.index_to_query@,
        }
    }

    /// The number of query words seen in the index of the direction `direction`.
    pub closed spec fn query_len(&self, direction: Direction) -> usize {
        match direction {
            Direction::Forward => self.forward.index_to_query.spec_query_len(),
            Direction::Backward => self.backward.index_to_query.spec_query_len(),
        }
    }

    /// The results belong to a well-formed searcher, and look into its two indices.
    pub closed spec fn wf(&self) -> bool {
        &&& self.searcher.wf()
        &&& self.forward.index_to_query.wf()
        &&& self.backward.index_to_query.wf()
        &&& *self.forward.index == self.searcher.spec_forward()
        &&& *self.backward.index == self.searcher.spec_backward()
    }

    /// The results made of their parts.
    pub fn new(
        backward: IndexResults<'a>,
        culture: u8,
        doc_ids: RoaringBitmap,
        forward: IndexResults<'a>,
        searcher: &'a Searcher,
    ) -> (r: Self)
        requires
            searcher.wf(),
            forward.index_to_query.wf(),
            backward.index_to_query.wf(),
            *forward.index == searcher.spec_forward(),
            *backward.index == searcher.spec_backward(),
        ensures
            r.wf(),
            r.doc_set() == bitmap_set(&doc_ids),
            r.spec_culture() == culture,
            r.spec_searcher() == *searcher,
            r.lookup(Direction::Forward) == forward.index_to_query@,
            r.lookup(Direction::Backward) == backward.index_to_query@,
            r.query_len(Direction::Forward) == forward.index_to_query.spec_query_len(),
            r.query_len(Direction::Backward) == backward.index_to_query.spec_query_len(),
    {
        SearchResults { backward, culture, doc_ids, forward, searcher }
    }

    /// Whether the document `id` was found.
    pub fn contains_doc_id(&self, id: DocId) -> (r: bool)
        ensures
            r == self.doc_set().contains(id.0),
    {
        bitmap_contains(&self.doc_ids, id.0)
    }

    /// The culture of the query.
    pub fn culture(&self) -> (r: u8)
        ensures
            r == self.spec_culture(),
    {
        self.culture
    }

    /// The searcher that answered the query.
    pub fn searcher(&self) -> (r: &'a Searcher)
        ensures
            *r == self.spec_searcher(),
            self.wf() ==> r.wf(),
    {
        self.searcher
    }

    /// What the query found in the index of the direction `direction`.
    pub fn direction_index_results(&self, direction: Direction) -> (r: &IndexResults<'a>)
        ensures
            r.index_to_query@ == self.lookup(direction),
            r.index_to_query.spec_query_len() == self.query_len(direction),
            self.wf() ==> r.index_to_query.wf() && r.index.wf() && r.index@ == index_of_direction(
                self.spec_searcher()@,
                direction,
            ),
    {
        proof {
            if self.wf() {
                self.searcher.lemma_wf();
            }
        }
        match direction {
            Direction::Forward => &self.forward,
            Direction::Backward => &self.backward,
        }
    }

    /// The matched words of the attribute `attr` of document `doc_id`, in the order of the
    /// value: each word as it is indexed, with the distance of its best match and the
    /// position of the query word that made it.
    pub fn get_doc_attr_words_with_distance_and_query_index(&self, doc_id: DocId, attr: &str) -> (r: Vec<
        (String, u8, usize),
    >)
        requires
            self.wf(),
        ensures
            r@.map_values(|m: (String, u8, usize)| (m.0@, m.1, m.2)) == self.attr_matches(doc_id.0, attr@),
    {
        let mut out: Vec<(String, u8, usize)> = Vec::new();
        let ghost view = |m: (String, u8, usize)| (m.0@, m.1, m.2);
        assert(out@.map_values(view) =~= Seq::<WordMatch>::empty());
        proof {
            self.searcher.lemma_wf();
        }
        match self.searcher.find(attr) {
            Some((_, a)) => {
                let results = match a.direction {
                    Direction::Backward => &self.backward,
                    Direction::Forward => &self.forward,
                };
                let ghost lookup = results.index_to_query@;
                let ghost f = |w: Seq<char>|
                    if lookup.contains_key(w) {
                        Some((w, lookup[w].distance, lookup[w].query_index))
                    } else {
                        None
                    };
                match results.index.get_doc_attribute_words(doc_id, a.index) {
                    Some(words) => {
                        let ghost ws = crate::word::words_view(words@);
                        let mut k: usize = 0;
                        assert(ws.take(0).filter_map(f) =~= Seq::<WordMatch>::empty());
                        while k < words.len()
                            invariant
                                0 <= k <= words.len(),
                                results.index_to_query.wf(),
                                lookup == results.index_to_query@,
                                ws == crate::word::words_view(words@),
                                view == |m: (String, u8, usize)| (m.0@, m.1, m.2),
                                f == |w: Seq<char>|
                                    if lookup.contains_key(w) {
                                        Some((w, lookup[w].distance, lookup[w].query_index))
                                    } else {
                                        None
                                    },
                                out@.map_values(view) == ws.take(k as int).filter_map(f),
                            decreases words.len() - k,
                        {
                            proof {
                                ws.lemma_filter_map_take_succ(f, k as int);
                                assert(ws[k as int] == words@[k as int]@);
                            }
                            match results.index_to_query.get(&words[k]) {
                                Some(q) => {
                                    let ghost prev = out@;
                                    let item = (string_of(&words[k]), q.distance.0, q.query_index);
                                    out.push(item);
                                    assert(out@.map_values(view) =~= prev.map_values(view).push(view(item)));
                                },
                                None => {},
                            }
                            k += 1;
                        }
                        assert(ws.take(words@.len() as int) =~= ws);
                    },
                    None => {
                        assert(Seq::<Seq<char>>::empty().filter_map(f) =~= Seq::<WordMatch>::empty());
                    },
                }
            },
            None => {},
        }
        out
    }

    /// What `get_doc_attr_words_with_distance_and_query_index` returns, as plain values.
    pub open spec fn attr_matches(&self, d: u32, attr: Seq<char>) -> Seq<WordMatch> {
        let s = self.spec_searcher()@;
        let at = position_of(s.attrs, attr);
        if at < s.attrs.len() {
            matched_words(self.lookup(s.attrs[at].1.direction), doc_attr_words(s, d, attr))
        } else {
            Seq::empty()
        }
    }

    /// The matched words of every attribute of document `doc_id`, attribute after
    /// attribute in the order of registration: the attribute's name, then what
    /// `get_doc_attr_words_with_distance_and_query_index` gives for it.
    pub fn get_doc_words_with_attr_distance_and_query_index(&self, doc_id: DocId) -> (r: Vec<
        (String, String, u8, usize),
    >)
        requires
            self.wf(),
        ensures
            r@.map_values(|m: (String, String, u8, usize)| (m.0@, m.1@, m.2, m.3)) == self.doc_matches(
                doc_id.0,
                self.spec_searcher()@.attrs.len() as int,
            ),
    {
        let mut out: Vec<(String, String, u8, usize)> = Vec::new();
        let ghost view = |m: (String, String, u8, usize)| (m.0@, m.1@, m.2, m.3);
        let ghost inner = |m: (String, u8, usize)| (m.0@, m.1, m.2);
        assert(out@.map_values(view) =~= Seq::<(Seq<char>, Seq<char>, u8, usize)>::empty());
        let attrs = self.searcher.attrs();
        let n = attr_map_len(attrs);
        let mut i: usize = 0;
        while i < n
            invariant
                0 <= i <= n,
                self.wf(),
                n == self.spec_searcher()@.attrs.len(),
                crate::attr_map::attr_entries(attrs) == self.spec_searcher()@.attrs,
                view == |m: (String, String, u8, usize)| (m.0@, m.1@, m.2, m.3),
                inner == |m: (String, u8, usize)| (m.0@, m.1, m.2),
                out@.map_values(view) == self.doc_matches(doc_id.0, i as int),
            decreases n - i,
        {
            if let Some(name) = attr_map_name_at(attrs, i) {
                let found = self.get_doc_attr_words_with_distance_and_query_index(doc_id, name.as_str());
                let ghost start = out@;
                let ghost name_view = name@;
                let ghost all = found@.map_values(inner);
                let mut k: usize = 0;
                assert(all.take(0) =~= Seq::<WordMatch>::empty());
                assert(start.map_values(view) + named(name_view, all.take(0)) =~= start.map_values(view));
                while k < found.len()
                    invariant
                        0 <= k <= found.len(),
                        view == |m: (String, String, u8, usize)| (m.0@, m.1@, m.2, m.3),
                        inner == |m: (String, u8, usize)| (m.0@, m.1, m.2),
                        all == found@.map_values(inner),
                        name_view == name@,
                        out@.map_values(view) == start.map_values(view) + named(name_view, all.take(k as int)),
                    decreases found.len() - k,
                {
                    let attr_name = string_of_str(name.as_str());
                    let word = string_of_str(found[k].0.as_str());
                    assert(attr_name@ == name_view);
                    assert(word@ == found@[k as int].0@);
                    let item = (attr_name, word, found[k].1, found[k].2);
                    let ghost prev = out@;
                    out.push(item);
                    proof {
                        assert(out@.map_values(view) =~= prev.map_values(view).push(view(item)));
                        assert(all.take(k + 1) =~= all.take(k as int).push(all[k as int]));
                        assert(named(name_view, all.take(k + 1)) =~= named(name_view, all.take(k as int)).push(
                            (name_view, all[k as int].0, all[k as int].1, all[k as int].2),
                        ));
                        assert(all[k as int] == inner(found@[k as int]));
                        assert(view(item) == (name_view, all[k as int].0, all[k as int].1, all[k as int].2));
                        assert(out@.map_values(view) =~= start.map_values(view) + named(
                            name_view,
                            all.take(k + 1),
                        ));
                    }
                    k += 1;
                }
                assert(all.take(found@.len() as int) =~= all);
            }
            i += 1;
        }
        out
    }

    /// The matched words of the first `n` attributes of document `d`, each with the name
    /// of its attribute.
    pub open spec fn doc_matches(&self, d: u32, n: int) -> Seq<(Seq<char>, Seq<char>, u8, usize)>
        decreases n,
    {
        if n <= 0 {
            Seq::empty()
        } else {
            let name = self.spec_searcher()@.attrs[n - 1].0;
            self.doc_matches(d, n - 1) + named(name, self.attr_matches(d, name))
        }
    }
}

/// The matches `ms`, each with the attribute name `name` before it.
pub open spec fn named(name: Seq<char>, ms: Seq<WordMatch>) -> Seq<(Seq<char>, Seq<char>, u8, usize)> {
    ms.map_values(|m: WordMatch| (name, m.0, m.1, m.2))
}

/// A copy of a string slice.
fn string_of_str(s: &str) -> (r: String)
    ensures
        r@ == s@,
{
    s.to_owned()
}

} // verus!
