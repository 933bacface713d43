//! The searcher: the registered attributes and the two indices that they feed.

use crate::attr_map::{
    attr_entries, attr_map_get_index, attr_map_get_index_of, attr_map_insert, attr_map_new,
    attr_map_shift_remove_index, count_cultures, culture_count, culture_fits, cultureless_positions,
    cultures_of, direction_in_use, lemma_count_fits, lemma_culture_count, lemma_cultures_of,
    lemma_cultures_removed, lemma_cultures_same, lemma_dir_count_bounds, lemma_entry_added,
    lemma_entry_removed, lemma_position_from, lemma_positions, lemma_renumbered,
    lemma_renumbered_fits, names_distinct, position_of, position_taken, ranked, ranked_but,
    renumber, renumbered, Attr, AttrMap,
};
use crate::attr_props::AttrProps;
use crate::bitmap::{
    bitmap_full, bitmap_intersect_with, bitmap_is_empty, bitmap_new, bitmap_set, bitmap_subtract,
    bitmap_union_with,
};
use crate::chars::string_of;
use crate::coverage::{
    covered, docs_fit, files, lemma_covered_push, lemma_ensure_covered, lemma_insert_covered,
    lemma_insert_fits, lemma_remove_attr_covered, lemma_remove_doc_covered, reachable,
};
use crate::direction::Direction;
use crate::doc_id::DocId;
use crate::index::Index;
use crate::index_model::{directional_words, IndexModel, Word};
use crate::index_results::IndexResults;
use crate::index_to_query::{best_add_all, grown_len, BestMatch, IndexToQuery};
use crate::match_entry::{entries_view, MatchEntry, MatchModel};
use crate::presence::Presence;
use crate::search_query::SearchQuery;
use crate::search_results::SearchResults;
use crate::tiers::{compute_attr_priorities, tiers, tiers_view, Tier, TierModel};
use crate::tokenizer::tokens;
use crate::word::words_view;
use crate::word_query::{WordQuery, WordQueryModel};
use roaring::RoaringBitmap;
use vstd::prelude::*;

verus! {

broadcast use vstd::seq_lib::group_seq_properties;

/// What a searcher holds, as plain values.
pub ghost struct SearcherModel {
    /// The attributes by name, in the order of their registration.
    pub attrs: Seq<(Seq<char>, Attr)>,
    pub forward: IndexModel,
    pub backward: IndexModel,
}

/// The index of the direction `direction`.
pub open spec fn index_of_direction(s: SearcherModel, direction: Direction) -> IndexModel {
    match direction {
        Direction::Forward => s.forward,
        Direction::Backward => s.backward,
    }
}

/// The searcher with `index` as its index of the direction `direction`.
pub open spec fn with_index(s: SearcherModel, direction: Direction, index: IndexModel) -> SearcherModel {
    match direction {
        Direction::Forward => SearcherModel { forward: index, ..s },
        Direction::Backward => SearcherModel { backward: index, ..s },
    }
}

/// The searcher after the attributes of `direction` are numbered anew and the tables of
/// that direction's index are brought to the number that the attributes ask for.
pub open spec fn reindexed(s: SearcherModel, direction: Direction) -> SearcherModel {
    let attrs = renumbered(s.attrs, direction);
    let index = crate::index_model::ensure_culture(
        index_of_direction(s, direction),
        direction_in_use(attrs, direction),
        culture_count(attrs),
        cultureless_positions(attrs, direction),
    );
    with_index(SearcherModel { attrs, ..s }, direction, index)
}

/// The searcher after the attribute `name` is registered with the properties `props`.
/// Nothing changes where an attribute of that name is registered already.
pub open spec fn set_attribute(s: SearcherModel, name: Seq<char>, props: AttrProps) -> SearcherModel {
    if position_of(s.attrs, name) < s.attrs.len() {
        s
    } else {
        let attr = Attr { direction: props.direction, culture: props.culture, priority: props.priority, index: 0 };
        reindexed(SearcherModel { attrs: s.attrs.push((name, attr)), ..s }, props.direction)
    }
}

/// The searcher after the attribute `name` is removed, with what the documents hold in
/// it. Nothing changes where no attribute of that name is registered.
pub open spec fn remove_attr(s: SearcherModel, name: Seq<char>) -> SearcherModel {
    let at = position_of(s.attrs, name);
    if at < s.attrs.len() {
        let attr = s.attrs[at].1;
        let index = crate::index_model::remove_attr(
            index_of_direction(s, attr.direction),
            attr.index as int,
            attr.culture,
        );
        reindexed(
            with_index(SearcherModel { attrs: s.attrs.remove(at), ..s }, attr.direction, index),
            attr.direction,
        )
    } else {
        s
    }
}

/// The searcher after the attribute `name` of document `d` gets the value `value`.
/// Nothing changes where no attribute of that name is registered.
pub open spec fn insert_doc_attribute(s: SearcherModel, d: u32, name: Seq<char>, value: Seq<char>) -> SearcherModel {
    let at = position_of(s.attrs, name);
    if at < s.attrs.len() {
        let attr = s.attrs[at].1;
        let index = crate::index_model::insert_doc_attribute(
            index_of_direction(s, attr.direction),
            d,
            attr.index as int,
            attr.culture,
            directional_words(tokens(value), attr.direction),
        );
        with_index(s, attr.direction, index)
    } else {
        s
    }
}

/// The searcher after document `d` is removed from both indices.
pub open spec fn remove_doc(s: SearcherModel, d: u32) -> SearcherModel {
    SearcherModel {
        attrs: s.attrs,
        forward: crate::index_model::remove_doc(s.forward, d),
        backward: crate::index_model::remove_doc(s.backward, d),
    }
}

/// Every word that a document holds in an attribute of the direction `direction` is
/// filed in that direction's index: in the table of the attribute's culture, or in every
/// table for an attribute without a culture. No record has more attributes than are
/// registered.
pub open spec fn filed(s: SearcherModel, direction: Direction) -> bool {
    &&& covered(index_of_direction(s, direction), cultures_of(s.attrs, direction))
    &&& docs_fit(index_of_direction(s, direction), cultures_of(s.attrs, direction).len() as int)
}

/// The tiers of each culture that the attributes ask a table for.
pub open spec fn all_tiers(s: Seq<(Seq<char>, Attr)>) -> Seq<Seq<TierModel>> {
    Seq::new(culture_count(s) as nat, |c: int| tiers(s, c as u8))
}

/// `base` together with the documents of each of the matches `es`.
pub open spec fn docs_union(base: Set<u32>, es: Seq<MatchModel>) -> Set<u32>
    decreases es.len(),
{
    if es.len() == 0 {
        base
    } else {
        docs_union(base, es.drop_last()).union(es.last().docs)
    }
}

/// Those of `base` that are documents of every one of the matches `es`.
pub open spec fn docs_intersection(base: Set<u32>, es: Seq<MatchModel>) -> Set<u32>
    decreases es.len(),
{
    if es.len() == 0 {
        base
    } else {
        docs_intersection(base, es.drop_last()).intersect(es.last().docs)
    }
}

/// How far the execution of a query has come.
pub ghost struct QueryState {
    /// The documents that the required words leave, once there was a required word.
    pub required: Option<Set<u32>>,
    /// The documents of the optional words.
    pub optional: Set<u32>,
    /// The documents of the denied words.
    pub denied: Set<u32>,
    /// The best match of each matched word of the forward index.
    pub forward: Map<Seq<char>, BestMatch>,
    pub forward_len: usize,
    /// The best match of each matched word of the backward index.
    pub backward: Map<Seq<char>, BestMatch>,
    pub backward_len: usize,
    /// A required word matched nothing: no later word is looked at.
    pub stopped: bool,
}

/// The state before the first word.
pub open spec fn query_start() -> QueryState {
    QueryState {
        required: None,
        optional: Set::empty(),
        denied: Set::empty(),
        forward: Map::empty(),
        forward_len: 0,
        backward: Map::empty(),
        backward_len: 0,
        stopped: false,
    }
}

/// The number of query words seen after a word at position `index` made the matches `es`.
pub open spec fn seen_len(len: usize, es: Seq<MatchModel>, index: usize) -> usize {
    if es.len() > 0 {
        grown_len(len, index)
    } else {
        len
    }
}

/// The state after the word `q`, with what it matched in the forward index and in the
/// backward index.
///
/// The documents of an optional word join the optional ones, those of a denied word the
/// denied ones. A required word that matched nothing leaves no document and stops the
/// query. Otherwise each of its matches narrows the required documents, which are all
/// documents before the first required word. The matches of a word that does not stop
/// the query are recorded in the reverse lookups.
pub open spec fn query_step(st: QueryState, q: WordQueryModel, fwd: Seq<MatchModel>, bwd: Seq<MatchModel>) -> QueryState {
    if q.presence == Presence::Required && fwd.len() == 0 && bwd.len() == 0 {
        QueryState { required: Some(Set::empty()), stopped: true, ..st }
    } else {
        let recorded = QueryState {
            forward: best_add_all(st.forward, fwd, q.index),
            forward_len: seen_len(st.forward_len, fwd, q.index),
            backward: best_add_all(st.backward, bwd, q.index),
            backward_len: seen_len(st.backward_len, bwd, q.index),
            ..st
        };
        match q.presence {
            Presence::Optional => QueryState {
                optional: docs_union(docs_union(st.optional, fwd), bwd),
                ..recorded
            },
            Presence::Denied => QueryState { denied: docs_union(docs_union(st.denied, fwd), bwd), ..recorded },
            Presence::Required => {
                let base = match st.required {
                    Some(r) => r,
                    None => Set::full(),
                };
                QueryState {
                    required: Some(docs_intersection(docs_intersection(base, fwd), bwd)),
                    ..recorded
                }
            },
        }
    }
}

/// The documents that a query finds: the documents of the optional words together with
/// those that the required words leave, or whichever of the two there is, without the
/// documents of the denied words.
pub open spec fn query_docs(st: QueryState) -> Set<u32> {
    let found = if st.optional == Set::<u32>::empty() {
        match st.required {
            Some(r) => r,
            None => Set::empty(),
        }
    } else {
        match st.required {
            Some(r) => st.optional.union(r),
            None => st.optional,
        }
    };
    found.difference(st.denied)
}

/// Adds the documents of each of `entries` to `set`.
fn add_entries(set: &mut RoaringBitmap, entries: &Vec<MatchEntry>)
    ensures
        bitmap_set(final(set)) == docs_union(bitmap_set(old(set)), entries_view(entries@)),
{
    let ghost es = entries_view(entries@);
    let mut i: usize = 0;
    assert(es.take(0) =~= Seq::<MatchModel>::empty());
    while i < entries.len()
        invariant
            0 <= i <= entries.len(),
            es == entries_view(entries@),
            bitmap_set(set) == docs_union(bitmap_set(old(set)), es.take(i as int)),
        decreases entries.len() - i,
    {
        proof {
            assert(es.take(i + 1).drop_last() =~= es.take(i as int));
            assert(es.take(i + 1).last() == entries@[i as int]@);
        }
        bitmap_union_with(set, entries[i].docs);
        i += 1;
    }
    assert(es.take(entries@.len() as int) =~= es);
}

/// Leaves in `required` only the documents of every one of `entries`.
fn intersect_entries(required: &mut RoaringBitmap, entries: &Vec<MatchEntry>)
    ensures
        bitmap_set(final(required)) == docs_intersection(bitmap_set(old(required)), entries_view(entries@)),
{
    let ghost es = entries_view(entries@);
    let mut i: usize = 0;
    assert(es.take(0) =~= Seq::<MatchModel>::empty());
    while i < entries.len()
        invariant
            0 <= i <= entries.len(),
            es == entries_view(entries@),
            bitmap_set(required) == docs_intersection(bitmap_set(old(required)), es.take(i as int)),
        decreases entries.len() - i,
    {
        proof {
            assert(es.take(i + 1).drop_last() =~= es.take(i as int));
            assert(es.take(i + 1).last() == entries@[i as int]@);
        }
        bitmap_intersect_with(required, entries[i].docs);
        i += 1;
    }
    assert(es.take(entries@.len() as int) =~= es);
}

/// The searcher `s` with the attribute at position `at` taken out of the attributes and
/// out of the records of its direction's index, before the attributes are numbered anew.
pub open spec fn attr_taken(s: SearcherModel, at: int) -> SearcherModel {
    let attr = s.attrs[at].1;
    let index = crate::index_model::remove_attr(
        index_of_direction(s, attr.direction),
        attr.index as int,
        attr.culture,
    );
    with_index(SearcherModel { attrs: s.attrs.remove(at), ..s }, attr.direction, index)
}

/// What holds of a well-formed searcher once an attribute is taken out, before the
/// attributes are numbered anew.
proof fn lemma_attr_removed(s: SearcherModel, at: int)
    requires
        0 <= at < s.attrs.len(),
        names_distinct(s.attrs),
        ranked(s.attrs),
        culture_fits(s.attrs, Direction::Forward, s.forward.tables.len() as int),
        culture_fits(s.attrs, Direction::Backward, s.backward.tables.len() as int),
        filed(s, Direction::Forward),
        filed(s, Direction::Backward),
        s.forward.docs.len() <= u32::MAX + 1,
        s.backward.docs.len() <= u32::MAX + 1,
    ensures
        ({
            let r = attr_taken(s, at);
            let direction = s.attrs[at].1.direction;
            &&& names_distinct(r.attrs)
            &&& ranked_but(r.attrs, direction)
            &&& culture_fits(r.attrs, Direction::Forward, r.forward.tables.len() as int)
            &&& culture_fits(r.attrs, Direction::Backward, r.backward.tables.len() as int)
            &&& filed(r, Direction::Forward)
            &&& filed(r, Direction::Backward)
            &&& reachable(index_of_direction(r, direction), cultures_of(r.attrs, direction))
        }),
{
    let a = s.attrs[at].1;
    let r = attr_taken(s, at);
    let cs = cultures_of(s.attrs, a.direction);
    lemma_entry_removed(s.attrs, at, s.forward.tables.len() as int);
    lemma_entry_removed(s.attrs, at, s.backward.tables.len() as int);
    lemma_cultures_of(s.attrs, a.direction);
    lemma_cultures_removed(s.attrs, at, Direction::Forward);
    lemma_cultures_removed(s.attrs, at, Direction::Backward);
    lemma_remove_attr_covered(index_of_direction(s, a.direction), cs, a.index as int);
    let index = index_of_direction(r, a.direction);
    let rest = cs.remove(a.index as int);
    assert(cultures_of(r.attrs, a.direction) == rest);
    assert forall|d: int, b: int|
        0 <= d < index.docs.len() && 0 <= b < rest.len() && rest[b] is Some && rest[b]->0 >= index.tables.len() implies b
            >= (#[trigger] index.docs[d]).len() || #[trigger] rest[b] is None by {
        let from = if b >= a.index {
            b + 1
        } else {
            b
        };
        assert(rest[b] == cs[from]);
        assert(position_taken(s.attrs, a.direction, from));
        let i = choose|i: int|
            0 <= i < s.attrs.len() && (#[trigger] s.attrs[i]).1.direction == a.direction && s.attrs[i].1.index
                == from;
        assert(cs[from] == s.attrs[i].1.culture);
    }
}

/// What holds of a well-formed searcher once an attribute of a new name is added last,
/// before the attributes are numbered anew.
proof fn lemma_attr_added(s: SearcherModel, name: Seq<char>, attr: Attr)
    requires
        position_of(s.attrs, name) >= s.attrs.len(),
        names_distinct(s.attrs),
        ranked(s.attrs),
        culture_fits(s.attrs, Direction::Forward, s.forward.tables.len() as int),
        culture_fits(s.attrs, Direction::Backward, s.backward.tables.len() as int),
        filed(s, Direction::Forward),
        filed(s, Direction::Backward),
    ensures
        ({
            let r = SearcherModel { attrs: s.attrs.push((name, attr)), ..s };
            &&& names_distinct(r.attrs)
            &&& ranked_but(r.attrs, attr.direction)
            &&& attr.direction != Direction::Forward ==> culture_fits(
                r.attrs,
                Direction::Forward,
                r.forward.tables.len() as int,
            )
            &&& attr.direction != Direction::Backward ==> culture_fits(
                r.attrs,
                Direction::Backward,
                r.backward.tables.len() as int,
            )
            &&& filed(r, Direction::Forward)
            &&& filed(r, Direction::Backward)
            &&& reachable(index_of_direction(r, attr.direction), cultures_of(r.attrs, attr.direction))
        }),
{
    let before = s.attrs;
    let added = (name, attr);
    let r = SearcherModel { attrs: before.push(added), ..s };
    lemma_entry_added(before, name, attr, s.forward.tables.len() as int);
    lemma_entry_added(before, name, attr, s.backward.tables.len() as int);
    assert(before.push(added).drop_last() =~= before);
    let index = index_of_direction(s, attr.direction);
    let cs = cultures_of(before, attr.direction);
    lemma_covered_push(index, cs, attr.culture);
    lemma_cultures_of(before, attr.direction);
    assert(cultures_of(r.attrs, attr.direction) == cs.push(attr.culture));
    assert forall|d: int, a: int|
        0 <= d < index.docs.len() && 0 <= a < cs.push(attr.culture).len() && cs.push(attr.culture)[a] is Some
            && cs.push(attr.culture)[a]->0 >= index.tables.len() implies a >= (#[trigger] index.docs[d]).len()
        || #[trigger] cs.push(attr.culture)[a] is None by {
        if a < cs.len() {
            assert(position_taken(before, attr.direction, a));
            let i = choose|i: int|
                0 <= i < before.len() && (#[trigger] before[i]).1.direction == attr.direction && before[i].1.index
                    == a;
            assert(cs[a] == before[i].1.culture);
        }
    }
}

/// A searcher.
pub struct Searcher {
    attrs: AttrMap,
    attrs_priorities: Vec<Vec<Tier>>,
    backward: Index,
    forward: Index,
}

impl View for Searcher {
    type V = SearcherModel;

    closed spec fn view(&self) -> SearcherModel {
        SearcherModel { attrs: attr_entries(&self.attrs), forward: self.forward@, backward: self.backward@ }
    }
}

impl Searcher {
    /// The forward index.
    pub closed spec fn spec_forward(&self) -> Index {
        self.forward
    }

    /// The backward index.
    pub closed spec fn spec_backward(&self) -> Index {
        self.backward
    }

    /// The tiers that are kept for ranking, by culture.
    pub closed spec fn spec_tiers(&self) -> Seq<Seq<TierModel>> {
        self.attrs_priorities@.map_values(|ts: Vec<Tier>| tiers_view(ts@))
    }

    /// The two indices are well formed and have their directions.
    pub closed spec fn indices_wf(&self) -> bool {
        &&& self.forward.wf()
        &&& self.backward.wf()
        &&& self.forward.spec_direction() == Direction::Forward
        &&& self.backward.spec_direction() == Direction::Backward
    }

    /// The searcher is well formed: the two indices are; no two attributes have the same
    /// name; the indices of the attributes of a direction are their ranks among them;
    /// every attribute has a table for its words; every word of a document's record is
    /// filed in the tables of its attribute; and the tiers kept for ranking are those of
    /// the attributes.
    pub closed spec fn wf(&self) -> bool {
        &&& self.indices_wf()
        &&& names_distinct(self@.attrs)
        &&& ranked(self@.attrs)
        &&& self@.attrs.len() <= usize::MAX
        &&& culture_fits(self@.attrs, Direction::Forward, self@.forward.tables.len() as int)
        &&& culture_fits(self@.attrs, Direction::Backward, self@.backward.tables.len() as int)
        &&& self.spec_tiers() == all_tiers(self@.attrs)
        &&& filed(self@, Direction::Forward)
        &&& filed(self@, Direction::Backward)
    }

    /// What `wf` says, in terms of what the searcher holds.
    pub proof fn lemma_wf(&self)
        requires
            self.wf(),
        ensures
            self.spec_forward().wf(),
            self.spec_backward().wf(),
            self.spec_forward()@ == self@.forward,
            self.spec_backward()@ == self@.backward,
            self.spec_forward().spec_direction() == Direction::Forward,
            self.spec_backward().spec_direction() == Direction::Backward,
            names_distinct(self@.attrs),
            ranked(self@.attrs),
            culture_fits(self@.attrs, Direction::Forward, self@.forward.tables.len() as int),
            culture_fits(self@.attrs, Direction::Backward, self@.backward.tables.len() as int),
            self.spec_tiers() == all_tiers(self@.attrs),
            filed(self@, Direction::Forward),
            filed(self@, Direction::Backward),
    {
    }

    /// Every word of a document's record is a row of a table of its index, with the
    /// document among the row's documents; and a word of an attribute without a culture
    /// is such a row of every table.
    pub proof fn law_words_are_filed(&self, direction: Direction, i: int, d: int, k: int)
        requires
            self.wf(),
            0 <= i < self@.attrs.len(),
            self@.attrs[i].1.direction == direction,
            0 <= d < index_of_direction(self@, direction).docs.len(),
            self@.attrs[i].1.index < index_of_direction(self@, direction).docs[d].len(),
            0 <= k < index_of_direction(self@, direction).docs[d][self@.attrs[i].1.index as int].len(),
        ensures
            ({
                let index = index_of_direction(self@, direction);
                let attr = self@.attrs[i].1;
                let word = index.docs[d][attr.index as int][k];
                &&& exists|t: int|
                    0 <= t < index.tables.len() && (#[trigger] index.tables[t]).contains_key(word)
                        && index.tables[t][word].contains(d as u32)
                &&& attr.culture is None ==> forall|t: int|
                    0 <= t < index.tables.len() ==> (#[trigger] index.tables[t]).contains_key(word)
                        && index.tables[t][word].contains(d as u32)
            }),
    {
        let index = index_of_direction(self@, direction);
        let attr = self@.attrs[i].1;
        let a = attr.index as int;
        let word = index.docs[d][a][k];
        let cs = cultures_of(self@.attrs, direction);
        lemma_cultures_of(self@.attrs, direction);
        assert(cs[a] == attr.culture);
        let at = match attr.culture {
            Some(c) => c as int,
            None => 0,
        };
        assert(0 <= at < index.tables.len());
        assert(files(index, at, d, a, k));
        assert(index.tables[at].contains_key(word));
        if attr.culture is None {
            assert forall|t: int| 0 <= t < index.tables.len() implies (#[trigger] index.tables[t]).contains_key(word)
                && index.tables[t][word].contains(d as u32) by {
                assert(files(index, t, d, a, k));
            }
        }
    }

    /// The indices of the attributes of a direction are `0..n` without a gap: each
    /// attribute's index is its rank among the attributes of its direction, below their
    /// number, and every number below it is the index of one of them.
    pub proof fn law_indices_dense(&self, direction: Direction)
        requires
            self.wf(),
        ensures
            forall|i: int|
                0 <= i < self@.attrs.len() && (#[trigger] self@.attrs[i]).1.direction == direction
                    ==> self@.attrs[i].1.index < cultures_of(self@.attrs, direction).len(),
            forall|i: int, j: int|
                0 <= i < j < self@.attrs.len() && (#[trigger] self@.attrs[i]).1.direction == direction && (
                #[trigger] self@.attrs[j]).1.direction == direction ==> self@.attrs[i].1.index
                    < self@.attrs[j].1.index,
            forall|a: int|
                0 <= a < cultures_of(self@.attrs, direction).len() ==> #[trigger] position_taken(
                    self@.attrs,
                    direction,
                    a,
                ),
    {
        let attrs = self@.attrs;
        lemma_cultures_of(attrs, direction);
        assert forall|i: int, j: int|
            0 <= i < j < attrs.len() && (#[trigger] attrs[i]).1.direction == direction && (
            #[trigger] attrs[j]).1.direction == direction implies attrs[i].1.index < attrs[j].1.index by {
            crate::attr_map::lemma_dir_count_mono(attrs, direction, i + 1, j);
        }
    }

    /// A word is interned in an index exactly where one of its tables has a row for it;
    /// no row is without documents; and the rows of every table ascend strictly by word.
    pub proof fn law_tables(&self, direction: Direction)
        requires
            self.wf(),
        ensures
            ({
                let index = match direction {
                    Direction::Forward => self.spec_forward(),
                    Direction::Backward => self.spec_backward(),
                };
                &&& forall|w: Word| index.interned().contains(w) <==> crate::index::in_some_table(index@.tables, w)
                &&& forall|t: int, w: Word|
                    0 <= t < index@.tables.len() && (#[trigger] index@.tables[t]).contains_key(w)
                        ==> #[trigger] index@.tables[t][w] != Set::<u32>::empty()
                &&& forall|t: int| 0 <= t < index@.tables.len() ==> crate::scan_laws::rows_ascend(#[trigger] index.table_rows(t))
            }),
    {
        self.forward.lemma_wf();
        self.backward.lemma_wf();
        assert forall|t: int| 0 <= t < self.forward@.tables.len() implies crate::scan_laws::rows_ascend(
            #[trigger] self.forward.table_rows(t),
        ) by {
            self.forward.lemma_rows(t);
        }
        assert forall|t: int| 0 <= t < self.backward@.tables.len() implies crate::scan_laws::rows_ascend(
            #[trigger] self.backward.table_rows(t),
        ) by {
            self.backward.lemma_rows(t);
        }
    }

    /// What the laws of the index ask of an index holds of the indices of a well-formed
    /// searcher, with the cultures of its attributes: no row is without documents, every
    /// word of the records is filed, and every attribute of a document has a table for
    /// its words.
    pub proof fn law_index_premises(&self, direction: Direction, d: u32)
        requires
            self.wf(),
            d < index_of_direction(self@, direction).docs.len(),
        ensures
            ({
                let index = index_of_direction(self@, direction);
                let cs = cultures_of(self@.attrs, direction);
                &&& index.docs.len() <= u32::MAX + 1
                &&& crate::index_laws::tables_ok(index.tables)
                &&& covered(index, cs)
                &&& docs_fit(index, cs.len() as int)
                &&& crate::index_laws::has_tables(index, cs, d)
            }),
    {
        let index = index_of_direction(self@, direction);
        let cs = cultures_of(self@.attrs, direction);
        self.forward.lemma_wf();
        self.backward.lemma_wf();
        lemma_cultures_of(self@.attrs, direction);
        assert forall|t: int| 0 <= t < index.tables.len() implies crate::index_laws::table_ok(
            #[trigger] index.tables[t],
        ) by {
            assert forall|w: Word| index.tables[t].contains_key(w) implies #[trigger] index.tables[t][w]
                != Set::<u32>::empty() by {}
        }
        assert forall|a: int| 0 <= a < index.docs[d as int].len() && (#[trigger] index.docs[d as int][a]).len()
            > 0 implies a < cs.len() && crate::index_model::any_selected(cs[a], index.tables.len() as int) by {
            assert(index.docs[d as int].len() <= cs.len());
            assert(position_taken(self@.attrs, direction, a));
            let i = choose|i: int|
                0 <= i < self@.attrs.len() && (#[trigger] self@.attrs[i]).1.direction == direction
                    && self@.attrs[i].1.index == a;
            assert(cs[a] == self@.attrs[i].1.culture);
        }
    }

    /// A searcher without attributes and without documents.
    pub fn new() -> (r: Self)
        ensures
            r.wf(),
            r@.attrs == Seq::<(Seq<char>, Attr)>::empty(),
            r@.forward == (IndexModel { docs: Seq::empty(), tables: Seq::empty() }),
            r@.backward == (IndexModel { docs: Seq::empty(), tables: Seq::empty() }),
    {
        let attrs = attr_map_new();
        let mut attrs_priorities: Vec<Vec<Tier>> = Vec::new();
        attrs_priorities.push(compute_attr_priorities(&attrs, 0));
        let r = Searcher {
            attrs,
            attrs_priorities,
            backward: Index::new(Direction::Backward),
            forward: Index::new(Direction::Forward),
        };
        proof {
            lemma_culture_count(r@.attrs);
            assert(r.spec_tiers() =~= all_tiers(r@.attrs));
        }
        r
    }

    /// The registered attributes.
    pub fn attrs(&self) -> (r: &AttrMap)
        ensures
            attr_entries(r) == self@.attrs,
    {
        &self.attrs
    }

    /// The forward index.
    pub fn forward(&self) -> (r: &Index)
        ensures
            *r == self.spec_forward(),
            r@ == self@.forward,
            self.wf() ==> r.wf(),
    {
        &self.forward
    }

    /// The backward index.
    pub fn backward(&self) -> (r: &Index)
        ensures
            *r == self.spec_backward(),
            r@ == self@.backward,
            self.wf() ==> r.wf(),
    {
        &self.backward
    }

    /// The attribute named `name`, if one is registered, with its position among the
    /// attributes.
    pub fn find(&self, name: &str) -> (r: Option<(usize, Attr)>)
        ensures
            match r {
                Some((at, attr)) => at == position_of(self@.attrs, name@) && at < self@.attrs.len() && attr
                    == self@.attrs[at as int].1,
                None => position_of(self@.attrs, name@) >= self@.attrs.len(),
            },
    {
        match attr_map_get_index_of(&self.attrs, name) {
            Some(at) => match attr_map_get_index(&self.attrs, at) {
                Some(attr) => Some((at, attr)),
                None => None,
            },
            None => None,
        }
    }

    /// The tiers of each culture that the attributes ask a table for.
    fn compute_all_priorities(&self) -> (r: Vec<Vec<Tier>>)
        ensures
            r@.map_values(|ts: Vec<Tier>| tiers_view(ts@)) == all_tiers(self@.attrs),
    {
        let count = count_cultures(&self.attrs);
        let mut out: Vec<Vec<Tier>> = Vec::new();
        let mut c: usize = 0;
        while c < count
            invariant
                0 <= c <= count,
                count == culture_count(self@.attrs),
                count <= 256,
                out@.len() == c,
                forall|j: int| 0 <= j < c ==> tiers_view((#[trigger] out@[j])@) == tiers(self@.attrs, j as u8),
            decreases count - c,
        {
            out.push(compute_attr_priorities(&self.attrs, c as u8));
            c += 1;
        }
        assert(out@.map_values(|ts: Vec<Tier>| tiers_view(ts@)) =~= all_tiers(self@.attrs));
        out
    }

    /// The state of the query after the first `n` of `words`, for the culture `culture`.
    pub open spec fn query_run(&self, words: Seq<WordQueryModel>, culture: u8, n: int) -> QueryState
        decreases n,
    {
        if n <= 0 {
            query_start()
        } else {
            let st = self.query_run(words, culture, n - 1);
            if st.stopped {
                st
            } else {
                let q = words[n - 1];
                query_step(
                    st,
                    q,
                    self.spec_forward().hits(q.word, q.op, culture),
                    self.spec_backward().hits(q.word, q.op, culture),
                )
            }
        }
    }

    /// Once a query has stopped, its state stays.
    pub proof fn lemma_query_stopped(&self, words: Seq<WordQueryModel>, culture: u8, at: int, n: int)
        requires
            0 <= at <= n,
            self.query_run(words, culture, at).stopped,
        ensures
            self.query_run(words, culture, n) == self.query_run(words, culture, at),
        decreases n - at,
    {
        if at < n {
            self.lemma_query_stopped(words, culture, at, n - 1);
        }
    }

    /// Executes `query`: every word is held against both indices, and the documents
    /// found are those of the optional words together with those that the required words
    /// leave, without those of the denied words. A required word that matches nothing
    /// ends the query without documents. The results keep, for each index, the best match
    /// of each word that was matched.
    pub fn query<'a>(&'a self, query: &SearchQuery) -> (r: SearchResults<'a>)
        requires
            self.wf(),
            query.wf(),
        ensures
            r.wf(),
            r.spec_searcher() == *self,
            r.spec_culture() == query.spec_culture(),
            ({
                let st = self.query_run(
                    query.spec_words(),
                    query.spec_culture(),
                    query.spec_words().len() as int,
                );
                &&& r.doc_set() == query_docs(st)
                &&& r.lookup(Direction::Forward) == st.forward
                &&& r.lookup(Direction::Backward) == st.backward
                &&& r.query_len(Direction::Forward) == st.forward_len
                &&& r.query_len(Direction::Backward) == st.backward_len
            }),
    {
        let culture = query.culture();
        let words = query.words();
        let ghost ws = query.spec_words();
        let mut backward_query: IndexToQuery<'a> = IndexToQuery::new();
        let mut forward_query: IndexToQuery<'a> = IndexToQuery::new();
        let mut has_required = false;
        let mut required = bitmap_new();
        let mut denied = bitmap_new();
        let mut optional = bitmap_new();
        let mut stopped = false;
        let mut i: usize = 0;
        while i < words.len() && !stopped
            invariant
                0 <= i <= words.len(),
                self.wf(),
                query.wf(),
                ws == query.spec_words(),
                ws == words@.map_values(|w: WordQuery| w@),
                culture == query.spec_culture(),
                forward_query.wf(),
                backward_query.wf(),
                self.query_run(ws, culture, i as int) == (QueryState {
                    required: if has_required {
                        Some(bitmap_set(&required))
                    } else {
                        None
                    },
                    optional: bitmap_set(&optional),
                    denied: bitmap_set(&denied),
                    forward: forward_query@,
                    forward_len: forward_query.spec_query_len(),
                    backward: backward_query@,
                    backward_len: backward_query.spec_query_len(),
                    stopped,
                }),
            decreases words.len() - i,
        {
            let q = &words[i];
            let mut forward_temp: Vec<MatchEntry<'a>> = Vec::new();
            let mut backward_temp: Vec<MatchEntry<'a>> = Vec::new();
            proof {
                assert(ws[i as int] == q@);
                assert(q@.index == i);
                assert(entries_view(forward_temp@) =~= Seq::<MatchModel>::empty());
                assert(entries_view(backward_temp@) =~= Seq::<MatchModel>::empty());
            }
            self.forward.query(q, culture, &mut forward_temp);
            self.backward.query(q, culture, &mut backward_temp);
            proof {
                assert(entries_view(forward_temp@) =~= self.spec_forward().hits(q@.word, q@.op, culture));
                assert(entries_view(backward_temp@) =~= self.spec_backward().hits(q@.word, q@.op, culture));
            }
            match q.presence() {
                Presence::Optional => {
                    add_entries(&mut optional, &forward_temp);
                    add_entries(&mut optional, &backward_temp);
                },
                Presence::Denied => {
                    add_entries(&mut denied, &forward_temp);
                    add_entries(&mut denied, &backward_temp);
                },
                Presence::Required => {
                    if forward_temp.len() == 0 && backward_temp.len() == 0 {
                        required = bitmap_new();
                        has_required = true;
                        stopped = true;
                    } else {
                        if !has_required {
                            required = bitmap_full();
                            has_required = true;
                        }
                        intersect_entries(&mut required, &forward_temp);
                        intersect_entries(&mut required, &backward_temp);
                    }
                },
            }
            if !stopped {
                backward_query.extend(q, &backward_temp);
                forward_query.extend(q, &forward_temp);
            }
            i += 1;
        }
        proof {
            if stopped {
                self.lemma_query_stopped(ws, culture, i as int, ws.len() as int);
            }
        }
        let mut doc_ids = if bitmap_is_empty(&optional) {
            if has_required {
                required
            } else {
                bitmap_new()
            }
        } else if has_required {
            bitmap_union_with(&mut optional, &required);
            optional
        } else {
            optional
        };
        bitmap_subtract(&mut doc_ids, &denied);
        let backward_results = IndexResults { index: &self.backward, index_to_query: backward_query };
        let forward_results = IndexResults { index: &self.forward, index_to_query: forward_query };
        SearchResults::new(backward_results, culture, doc_ids, forward_results, self)
    }

    /// Numbers the attributes of `direction` anew, renews the tiers, and brings the tables
    /// of that direction's index to the number that the attributes ask for.
    fn reindex_attribute(&mut self, direction: Direction)
        requires
            old(self).indices_wf(),
            names_distinct(old(self)@.attrs),
            old(self)@.attrs.len() <= usize::MAX,
            ranked_but(old(self)@.attrs, direction),
            direction != Direction::Forward ==> culture_fits(
                old(self)@.attrs,
                Direction::Forward,
                old(self)@.forward.tables.len() as int,
            ),
            direction != Direction::Backward ==> culture_fits(
                old(self)@.attrs,
                Direction::Backward,
                old(self)@.backward.tables.len() as int,
            ),
            filed(old(self)@, Direction::Forward),
            filed(old(self)@, Direction::Backward),
            reachable(index_of_direction(old(self)@, direction), cultures_of(old(self)@.attrs, direction)),
        ensures
            final(self).wf(),
            final(self)@ == reindexed(old(self)@, direction),
    {
        proof {
            lemma_renumbered(self@.attrs, direction);
            lemma_cultures_same(renumbered(self@.attrs, direction), self@.attrs, Direction::Forward);
            lemma_cultures_same(renumbered(self@.attrs, direction), self@.attrs, Direction::Backward);
            self.forward.lemma_wf();
            self.backward.lemma_wf();
            let attrs = renumbered(self@.attrs, direction);
            let cs = cultures_of(attrs, direction);
            assert forall|a: int| 0 <= a < cs.len() && cs[a] is None implies #[trigger] cultureless_positions(
                attrs,
                direction,
            ).contains(a) by {
                lemma_positions(attrs, direction, a);
            }
            lemma_culture_count(attrs);
            lemma_ensure_covered(
                index_of_direction(self@, direction),
                cs,
                direction_in_use(attrs, direction),
                culture_count(attrs),
                cultureless_positions(attrs, direction),
            );
            if direction != Direction::Forward {
                lemma_renumbered_fits(
                    self@.attrs,
                    direction,
                    Direction::Forward,
                    self@.forward.tables.len() as int,
                );
            }
            if direction != Direction::Backward {
                lemma_renumbered_fits(
                    self@.attrs,
                    direction,
                    Direction::Backward,
                    self@.backward.tables.len() as int,
                );
            }
        }
        renumber(&mut self.attrs, direction);
        self.attrs_priorities = self.compute_all_priorities();
        match direction {
            Direction::Forward => self.forward.ensure_culture(&self.attrs),
            Direction::Backward => self.backward.ensure_culture(&self.attrs),
        }
        proof {
            let attrs = self@.attrs;
            lemma_culture_count(attrs);
            lemma_count_fits(attrs, direction);
            let n = index_of_direction(self@, direction).tables.len() as int;
            if direction_in_use(attrs, direction) {
                assert(n >= culture_count(attrs));
                assert forall|i: int| 0 <= i < attrs.len() && (#[trigger] attrs[i]).1.direction
                    == direction implies n >= 1 && (attrs[i].1.culture matches Some(c) ==> c < n) by {}
            }
            assert(culture_fits(attrs, direction, n));
        }
    }

    /// Registers the attribute `name` with the properties `attr`. Returns `false`, and
    /// changes nothing, where an attribute of that name is registered already.
    pub fn set_attribute(&mut self, name: String, attr: AttrProps) -> (r: bool)
        requires
            old(self).wf(),
            old(self)@.attrs.len() < usize::MAX,
        ensures
            final(self).wf(),
            final(self)@ == set_attribute(old(self)@, name@, attr),
            r == (position_of(old(self)@.attrs, name@) >= old(self)@.attrs.len()),
    {
        if self.find(name.as_str()).is_some() {
            return false;
        }
        proof {
            lemma_position_from(self@.attrs, name@, 0);
        }
        let ghost before = self@.attrs;
        let ghost added = (
            name@,
            Attr { direction: attr.direction, culture: attr.culture, priority: attr.priority, index: 0 },
        );
        attr_map_insert(
            &mut self.attrs,
            name,
            Attr { direction: attr.direction, culture: attr.culture, priority: attr.priority, index: 0 },
        );
        proof {
            assert(self@.attrs == before.push(added));
            lemma_attr_added(old(self)@, added.0, added.1);
        }
        self.reindex_attribute(attr.direction);
        true
    }

    /// Removes the attribute `name`, with what the documents hold in it. Returns `false`,
    /// and changes nothing, where no attribute of that name is registered.
    pub fn remove_attr(&mut self, name: &str) -> (r: bool)
        requires
            old(self).wf(),
        ensures
            final(self).wf(),
            final(self)@ == remove_attr(old(self)@, name@),
            r == (position_of(old(self)@.attrs, name@) < old(self)@.attrs.len()),
    {
        match self.find(name) {
            Some((at, a)) => {
                let ghost before = self@.attrs;
                attr_map_shift_remove_index(&mut self.attrs, at);
                match a.direction {
                    Direction::Forward => self.forward.remove_attr(a.index, a.culture),
                    Direction::Backward => self.backward.remove_attr(a.index, a.culture),
                }
                proof {
                    assert(self@.attrs == before.remove(at as int));
                    old(self).forward.lemma_wf();
                    old(self).backward.lemma_wf();
                    lemma_attr_removed(old(self)@, at as int);
                }
                self.reindex_attribute(a.direction);
                true
            },
            None => false,
        }
    }

    /// Replaces the value of the attribute `name` of document `doc_id` by `value`.
    /// Nothing happens where no attribute of that name is registered.
    pub fn insert_doc_attribute(&mut self, doc_id: DocId, name: &str, value: &str)
        requires
            old(self).wf(),
        ensures
            final(self).wf(),
            final(self)@ == insert_doc_attribute(old(self)@, doc_id.0, name@, value@),
    {
        if let Some((at, a)) = self.find(name) {
            proof {
                lemma_dir_count_bounds(self@.attrs, a.direction, at as int);
                lemma_cultures_of(self@.attrs, a.direction);
                self.forward.lemma_wf();
                self.backward.lemma_wf();
                let words = directional_words(tokens(value@), a.direction);
                let index = index_of_direction(self@, a.direction);
                let cs = cultures_of(self@.attrs, a.direction);
                lemma_insert_covered(index, cs, doc_id.0, a.index as int, words);
                lemma_insert_fits(index, cs.len() as int, doc_id.0, a.index as int, a.culture, words);
            }
            match a.direction {
                Direction::Forward => self.forward.insert_doc_attribute(doc_id, a.index, a.culture, value),
                Direction::Backward => self.backward.insert_doc_attribute(doc_id, a.index, a.culture, value),
            }
            proof {
                assert(self@.forward.tables.len() == old(self)@.forward.tables.len());
                assert(self@.backward.tables.len() == old(self)@.backward.tables.len());
            }
        }
    }

    /// Removes document `doc_id` from both indices. Nothing happens where the document
    /// has no record.
    pub fn remove_doc(&mut self, doc_id: DocId)
        requires
            old(self).wf(),
        ensures
            final(self).wf(),
            final(self)@ == remove_doc(old(self)@, doc_id.0),
    {
        proof {
            self.forward.lemma_wf();
            self.backward.lemma_wf();
            lemma_remove_doc_covered(self@.forward, cultures_of(self@.attrs, Direction::Forward), doc_id.0);
            lemma_remove_doc_covered(self@.backward, cultures_of(self@.attrs, Direction::Backward), doc_id.0);
        }
        self.backward.remove_doc(doc_id);
        self.forward.remove_doc(doc_id);
        proof {
            assert(self@.forward.tables.len() == old(self)@.forward.tables.len());
            assert(self@.backward.tables.len() == old(self)@.backward.tables.len());
        }
    }

    /// The words of the attribute `name` of document `doc_id` as they are indexed, in the
    /// order of the value: none where the attribute is not registered or the document
    /// holds nothing in it.
    pub fn get_doc_attr_words(&self, doc_id: DocId, name: &str) -> (r: Vec<String>)
        ensures
            r@.map_values(|s: String| s@) == doc_attr_words(self@, doc_id.0, name@),
    {
        let mut out: Vec<String> = Vec::new();
        assert(out@.map_values(|s: String| s@) =~= Seq::<Seq<char>>::empty());
        if let Some((_, a)) = self.find(name) {
            let index = match a.direction {
                Direction::Backward => &self.backward,
                Direction::Forward => &self.forward,
            };
            if let Some(words) = index.get_doc_attribute_words(doc_id, a.index) {
                let mut k: usize = 0;
                while k < words.len()
                    invariant
                        0 <= k <= words.len(),
                        out@.map_values(|s: String| s@) == words_view(words@).take(k as int),
                    decreases words.len() - k,
                {
                    let s = string_of(&words[k]);
                    let ghost prev = out@;
                    out.push(s);
                    assert(out@.map_values(|s: String| s@) =~= prev.map_values(|s: String| s@).push(
                        words@[k as int]@,
                    ));
                    assert(words_view(words@).take(k + 1) =~= words_view(words@).take(k as int).push(
                        words@[k as int]@,
                    ));
                    k += 1;
                }
                assert(words_view(words@).take(words@.len() as int) =~= words_view(words@));
            }
        }
        out
    }

    /// The tiers for queries of the culture `culture`: those of the first culture where
    /// the attributes ask no table for `culture`.
    pub fn attrs_priorities(&self, culture: u8) -> (r: &Vec<Tier>)
        requires
            self.wf(),
        ensures
            tiers_view(r@) == ranking_tiers(self@.attrs, culture),
    {
        proof {
            lemma_culture_count(self@.attrs);
            assert(self.spec_tiers().len() == self.attrs_priorities@.len());
        }
        let c = culture as usize;
        if c < self.attrs_priorities.len() {
            assert(self.spec_tiers()[c as int] == tiers_view(self.attrs_priorities@[c as int]@));
            &self.attrs_priorities[c]
        } else {
            assert(self.spec_tiers()[0] == tiers_view(self.attrs_priorities@[0]@));
            &self.attrs_priorities[0]
        }
    }
}

impl Default for Searcher {
    fn default() -> (r: Self)
        ensures
            r.wf(),
            r@.attrs == Seq::<(Seq<char>, Attr)>::empty(),
    {
        Searcher::new()
    }
}

/// The tiers that documents are ranked by for queries of the culture `culture`.
pub open spec fn ranking_tiers(s: Seq<(Seq<char>, Attr)>, culture: u8) -> Seq<TierModel> {
    if culture < culture_count(s) {
        tiers(s, culture)
    } else {
        tiers(s, 0)
    }
}

/// The words of the attribute `name` of document `d` as they are indexed.
pub open spec fn doc_attr_words(s: SearcherModel, d: u32, name: Seq<char>) -> Seq<Word> {
    let at = position_of(s.attrs, name);
    if at < s.attrs.len() {
        let attr = s.attrs[at].1;
        let index = index_of_direction(s, attr.direction);
        if d < index.docs.len() && attr.index < index.docs[d as int].len() {
            index.docs[d as int][attr.index as int]
        } else {
            Seq::empty()
        }
    } else {
        Seq::empty()
    }
}

} // verus!
