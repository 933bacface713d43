//! The registered attributes, in the order of their registration. They are kept in an
//! `indexmap::IndexMap` keyed by name; what Verus knows of it is stated here and nowhere
//! proved.

use crate::direction::Direction;
use fxhash::{FxBuildHasher, FxHasher};
use indexmap::IndexMap;
use std::hash::BuildHasherDefault;
use vstd::prelude::*;

verus! {

#[verifier::external_type_specification]
#[verifier::external_body]
#[verifier::reject_recursive_types(K)]
#[verifier::reject_recursive_types(V)]
#[verifier::reject_recursive_types(S)]
pub struct ExIndexMap<K, V, S>(IndexMap<K, V, S>);

#[verifier::external_type_specification]
#[verifier::external_body]
pub struct ExFxHasher(FxHasher);

#[verifier::external_type_specification]
#[verifier::external_body]
#[verifier::reject_recursive_types(H)]
pub struct ExBuildHasherDefault<H>(BuildHasherDefault<H>);

/// A registered attribute.
#[derive(Clone, Copy, Debug)]
pub struct Attr {
    pub direction: Direction,
    pub culture: Option<u8>,
    pub priority: u8,
    /// The attribute's position among the attributes of its direction.
    pub index: usize,
}

/// The attributes by name, in the order of their registration.
pub type AttrMap = IndexMap<String, Attr, FxBuildHasher>;

/// The entries of the map in order: each attribute's name with the attribute.
pub uninterp spec fn attr_entries(m: &AttrMap) -> Seq<(Seq<char>, Attr)>;

/// The first position at or after `from` whose entry is named `name`, or the length of
/// `s` where there is none.
pub open spec fn position_from(s: Seq<(Seq<char>, Attr)>, name: Seq<char>, from: int) -> int
    decreases s.len() - from,
{
    if from < 0 || from >= s.len() {
        s.len() as int
    } else if s[from].0 == name {
        from
    } else {
        position_from(s, name, from + 1)
    }
}

/// The first position whose entry is named `name`, or the length of `s` where there is
/// none.
pub open spec fn position_of(s: Seq<(Seq<char>, Attr)>, name: Seq<char>) -> int {
    position_from(s, name, 0)
}

/// `IndexMap::default`: a map without entries.
#[verifier::external_body]
pub(crate) fn attr_map_new() -> (m: AttrMap)
    ensures
        attr_entries(&m) == Seq::<(Seq<char>, Attr)>::empty(),
{
    IndexMap::default()
}

/// `IndexMap::len`: the number of entries.
#[verifier::external_body]
pub(crate) fn attr_map_len(m: &AttrMap) -> (n: usize)
    ensures
        n == attr_entries(m).len(),
{
    m.len()
}

/// `IndexMap::get_index`: the attribute at position `i`, if there is one.
#[verifier::external_body]
pub(crate) fn attr_map_get_index(m: &AttrMap, i: usize) -> (r: Option<Attr>)
    ensures
        r == if i < attr_entries(m).len() {
            Some(attr_entries(m)[i as int].1)
        } else {
            None
        },
{
    m.get_index(i).map(|(_, a)| *a)
}

/// `IndexMap::get_index`: the name at position `i`, if there is one.
#[verifier::external_body]
pub(crate) fn attr_map_name_at(m: &AttrMap, i: usize) -> (r: Option<String>)
    ensures
        i < attr_entries(m).len() ==> r is Some && r->0@ == attr_entries(m)[i as int].0,
        i >= attr_entries(m).len() ==> r is None,
{
    m.get_index(i).map(|(k, _)| k.clone())
}

/// `IndexMap::get_index_of`: the position of the entry named `name`, if there is one.
#[verifier::external_body]
pub(crate) fn attr_map_get_index_of(m: &AttrMap, name: &str) -> (r: Option<usize>)
    ensures
        match r {
            Some(i) => i == position_of(attr_entries(m), name@) && i < attr_entries(m).len(),
            None => position_of(attr_entries(m), name@) >= attr_entries(m).len(),
        },
{
    m.get_index_of(name)
}

/// `IndexMap::insert`: the entry named `name` gets the value `attr` and keeps its place;
/// where there is none, a new entry comes last.
#[verifier::external_body]
pub(crate) fn attr_map_insert(m: &mut AttrMap, name: String, attr: Attr)
    ensures
        attr_entries(final(m)) == if position_of(attr_entries(old(m)), name@) < attr_entries(
            old(m),
        ).len() {
            attr_entries(old(m)).update(position_of(attr_entries(old(m)), name@), (name@, attr))
        } else {
            attr_entries(old(m)).push((name@, attr))
        },
{
    m.insert(name, attr);
}

/// `IndexMap::shift_remove_index`: the entry at position `i` leaves, and those behind it
/// move up by one; nothing changes where there is no such entry.
#[verifier::external_body]
pub(crate) fn attr_map_shift_remove_index(m: &mut AttrMap, i: usize)
    ensures
        attr_entries(final(m)) == if i < attr_entries(old(m)).len() {
            attr_entries(old(m)).remove(i as int)
        } else {
            attr_entries(old(m))
        },
{
    m.shift_remove_index(i);
}

/// `IndexMut<usize>` of `IndexMap`: the entry at position `i` gets the value `attr`.
#[verifier::external_body]
pub(crate) fn attr_map_set(m: &mut AttrMap, i: usize, attr: Attr)
    requires
        i < attr_entries(old(m)).len(),
    ensures
        attr_entries(final(m)) == attr_entries(old(m)).update(
            i as int,
            (attr_entries(old(m))[i as int].0, attr),
        ),
{
    m[i] = attr;
}

/// Some attribute is indexed in the direction `direction`.
pub open spec fn direction_in_use(s: Seq<(Seq<char>, Attr)>, direction: Direction) -> bool {
    exists|i: int| 0 <= i < s.len() && (#[trigger] s[i]).1.direction == direction
}

/// The number of word tables that the attributes ask for: one more than the largest
/// culture, and one where no attribute has a culture.
pub open spec fn culture_count(s: Seq<(Seq<char>, Attr)>) -> int
    decreases s.len(),
{
    if s.len() == 0 {
        1
    } else {
        let rest = culture_count(s.drop_last());
        match s.last().1.culture {
            Some(c) => if c + 1 > rest {
                c + 1
            } else {
                rest
            },
            None => rest,
        }
    }
}

/// The positions, in the order of registration, of the attributes of the direction
/// `direction` that have no culture.
pub open spec fn cultureless_positions(s: Seq<(Seq<char>, Attr)>, direction: Direction) -> Seq<int>
    decreases s.len(),
{
    if s.len() == 0 {
        Seq::empty()
    } else {
        let rest = cultureless_positions(s.drop_last(), direction);
        let attr = s.last().1;
        if attr.culture is None && attr.direction == direction {
            rest.push(attr.index as int)
        } else {
            rest
        }
    }
}

/// Whether some attribute is indexed in the direction `direction`.
pub fn in_use(m: &AttrMap, direction: Direction) -> (r: bool)
    ensures
        r == direction_in_use(attr_entries(m), direction),
{
    let n = attr_map_len(m);
    let mut i: usize = 0;
    while i < n
        invariant
            0 <= i <= n,
            n == attr_entries(m).len(),
            forall|j: int| 0 <= j < i ==> (#[trigger] attr_entries(m)[j]).1.direction != direction,
        decreases n - i,
    {
        if let Some(attr) = attr_map_get_index(m, i) {
            if attr.direction == direction {
                return true;
            }
        }
        i += 1;
    }
    false
}

/// The number of word tables that the attributes ask for.
pub fn count_cultures(m: &AttrMap) -> (r: usize)
    ensures
        r == culture_count(attr_entries(m)),
        1 <= r <= 256,
{
    let ghost s = attr_entries(m);
    let n = attr_map_len(m);
    let mut count: usize = 1;
    let mut i: usize = 0;
    assert(s.take(0) =~= Seq::empty());
    while i < n
        invariant
            0 <= i <= n,
            n == s.len(),
            s == attr_entries(m),
            count == culture_count(s.take(i as int)),
            1 <= count <= 256,
        decreases n - i,
    {
        proof {
            assert(s.take(i + 1).drop_last() =~= s.take(i as int));
            assert(s.take(i + 1).last() == s[i as int]);
        }
        if let Some(attr) = attr_map_get_index(m, i) {
            if let Some(c) = attr.culture {
                let wanted = c as usize + 1;
                if wanted > count {
                    count = wanted;
                }
            }
        }
        i += 1;
    }
    assert(s.take(n as int) =~= s);
    count
}

/// The positions of the attributes of the direction `direction` that have no culture.
pub fn positions_without_culture(m: &AttrMap, direction: Direction) -> (r: Vec<usize>)
    ensures
        r@.map_values(|p: usize| p as int) == cultureless_positions(attr_entries(m), direction),
{
    let ghost s = attr_entries(m);
    let n = attr_map_len(m);
    let mut out: Vec<usize> = Vec::new();
    let mut i: usize = 0;
    assert(s.take(0) =~= Seq::empty());
    assert(out@.map_values(|p: usize| p as int) =~= Seq::<int>::empty());
    while i < n
        invariant
            0 <= i <= n,
            n == s.len(),
            s == attr_entries(m),
            out@.map_values(|p: usize| p as int) == cultureless_positions(s.take(i as int), direction),
        decreases n - i,
    {
        proof {
            assert(s.take(i + 1).drop_last() =~= s.take(i as int));
            assert(s.take(i + 1).last() == s[i as int]);
        }
        if let Some(attr) = attr_map_get_index(m, i) {
            if attr.culture.is_none() && attr.direction == direction {
                let ghost prev = out@;
                out.push(attr.index);
                assert(out@.map_values(|p: usize| p as int) =~= prev.map_values(|p: usize| p as int).push(
                    attr.index as int,
                ));
            }
        }
        i += 1;
    }
    assert(s.take(n as int) =~= s);
    out
}

/// No two entries have the same name.
pub open spec fn names_distinct(s: Seq<(Seq<char>, Attr)>) -> bool {
    forall|i: int, j: int| 0 <= i < j < s.len() ==> (#[trigger] s[i]).0 != (#[trigger] s[j]).0
}

/// The number of attributes of the direction `direction` among the first `n` entries.
pub open spec fn dir_count(s: Seq<(Seq<char>, Attr)>, direction: Direction, n: int) -> int
    decreases n,
{
    if n <= 0 {
        0
    } else {
        dir_count(s, direction, n - 1) + if s[n - 1].1.direction == direction {
            1int
        } else {
            0int
        }
    }
}

/// Every attribute's index is its rank among the attributes of its direction, in the
/// order of registration: the indices of a direction are `0..n` without a gap.
pub open spec fn ranked(s: Seq<(Seq<char>, Attr)>) -> bool {
    forall|i: int| 0 <= i < s.len() ==> (#[trigger] s[i]).1.index == dir_count(s, s[i].1.direction, i)
}

/// The entries with the attributes of the direction `direction` numbered by their rank
/// among them.
pub open spec fn renumbered(s: Seq<(Seq<char>, Attr)>, direction: Direction) -> Seq<(Seq<char>, Attr)> {
    Seq::new(
        s.len(),
        |i: int|
            if s[i].1.direction == direction {
                (s[i].0, Attr { index: dir_count(s, direction, i) as usize, ..s[i].1 })
            } else {
                s[i]
            },
    )
}

/// The count of a direction is at most the number of entries counted.
pub proof fn lemma_dir_count_bounds(s: Seq<(Seq<char>, Attr)>, direction: Direction, n: int)
    requires
        0 <= n <= s.len(),
    ensures
        0 <= dir_count(s, direction, n) <= n,
    decreases n,
{
    if n > 0 {
        lemma_dir_count_bounds(s, direction, n - 1);
    }
}

/// The count of a direction depends on the directions of the entries counted alone.
pub proof fn lemma_dir_count_same(
    s: Seq<(Seq<char>, Attr)>,
    t: Seq<(Seq<char>, Attr)>,
    direction: Direction,
    n: int,
)
    requires
        0 <= n <= s.len(),
        n <= t.len(),
        forall|i: int| 0 <= i < n ==> (#[trigger] s[i]).1.direction == (#[trigger] t[i]).1.direction,
    ensures
        dir_count(s, direction, n) == dir_count(t, direction, n),
    decreases n,
{
    if n > 0 {
        lemma_dir_count_same(s, t, direction, n - 1);
    }
}

/// The position of the entry named `name` is that of the first such entry, and lies
/// within the entries exactly where there is one.
pub proof fn lemma_position_from(s: Seq<(Seq<char>, Attr)>, name: Seq<char>, from: int)
    requires
        0 <= from <= s.len(),
    ensures
        from <= position_from(s, name, from) <= s.len(),
        position_from(s, name, from) < s.len() ==> s[position_from(s, name, from)].0 == name,
        forall|i: int| from <= i < position_from(s, name, from) ==> (#[trigger] s[i]).0 != name,
    decreases s.len() - from,
{
    if from < s.len() && s[from].0 != name {
        lemma_position_from(s, name, from + 1);
    }
}

/// Gives each attribute of the direction `direction` its rank among them as its index.
pub fn renumber(m: &mut AttrMap, direction: Direction)
    ensures
        attr_entries(final(m)) == renumbered(attr_entries(old(m)), direction),
{
    let ghost s = attr_entries(m);
    let n = attr_map_len(m);
    let mut index: usize = 0;
    let mut i: usize = 0;
    while i < n
        invariant
            0 <= i <= n,
            n == s.len(),
            s == attr_entries(old(m)),
            attr_entries(m).len() == n,
            index == dir_count(s, direction, i as int),
            index <= i,
            forall|j: int| 0 <= j < i ==> #[trigger] attr_entries(m)[j] == renumbered(s, direction)[j],
            forall|j: int| i <= j < n ==> #[trigger] attr_entries(m)[j] == s[j],
        decreases n - i,
    {
        if let Some(attr) = attr_map_get_index(m, i) {
            if attr.direction == direction {
                attr_map_set(
                    m,
                    i,
                    Attr { direction: attr.direction, culture: attr.culture, priority: attr.priority, index },
                );
                index += 1;
            }
        }
        i += 1;
    }
    assert(attr_entries(m) =~= renumbered(s, direction));
}

/// Renumbering one direction makes every index a rank, where those of the other
/// direction were ranks already; names, directions, cultures and priorities stay.
pub proof fn lemma_renumbered(s: Seq<(Seq<char>, Attr)>, direction: Direction)
    requires
        s.len() <= usize::MAX,
        forall|i: int|
            0 <= i < s.len() && (#[trigger] s[i]).1.direction != direction ==> s[i].1.index == dir_count(
                s,
                s[i].1.direction,
                i,
            ),
    ensures
        ranked(renumbered(s, direction)),
        names_distinct(s) ==> names_distinct(renumbered(s, direction)),
        forall|i: int|
            0 <= i < s.len() ==> {
                &&& (#[trigger] renumbered(s, direction)[i]).0 == s[i].0
                &&& renumbered(s, direction)[i].1.direction == s[i].1.direction
                &&& renumbered(s, direction)[i].1.culture == s[i].1.culture
                &&& renumbered(s, direction)[i].1.priority == s[i].1.priority
            },
        forall|d: Direction, n: int|
            0 <= n <= s.len() ==> #[trigger] dir_count(renumbered(s, direction), d, n) == dir_count(s, d, n),
{
    let t = renumbered(s, direction);
    assert forall|d: Direction, n: int| 0 <= n <= s.len() implies #[trigger] dir_count(t, d, n)
        == dir_count(s, d, n) by {
        lemma_dir_count_same(t, s, d, n);
    }
    assert forall|i: int| 0 <= i < t.len() implies (#[trigger] t[i]).1.index == dir_count(
        t,
        t[i].1.direction,
        i,
    ) by {
        lemma_dir_count_bounds(s, direction, i);
        assert(dir_count(t, t[i].1.direction, i) == dir_count(s, t[i].1.direction, i));
    }
}

/// The number of tables that the attributes ask for is at least one, at most 256, and
/// larger than every culture among them.
pub proof fn lemma_culture_count(s: Seq<(Seq<char>, Attr)>)
    ensures
        1 <= culture_count(s) <= 256,
        forall|i: int|
            0 <= i < s.len() ==> ((#[trigger] s[i]).1.culture matches Some(c) ==> c < culture_count(s)),
    decreases s.len(),
{
    if s.len() > 0 {
        lemma_culture_count(s.drop_last());
        assert forall|i: int| 0 <= i < s.len() implies ((#[trigger] s[i]).1.culture matches Some(c) ==> c
            < culture_count(s)) by {
            if i < s.len() - 1 {
                assert(s.drop_last()[i] == s[i]);
            }
        }
    }
}

/// Counting a direction past a removed entry: the count without the entry is the count
/// with it, less one where the entry was of that direction.
pub proof fn lemma_dir_count_skip(s: Seq<(Seq<char>, Attr)>, at: int, direction: Direction, n: int)
    requires
        0 <= at < n <= s.len(),
    ensures
        dir_count(s.remove(at), direction, n - 1) == dir_count(s, direction, n) - if s[at].1.direction
            == direction {
            1int
        } else {
            0int
        },
    decreases n,
{
    if n - 1 > at {
        lemma_dir_count_skip(s, at, direction, n - 1);
        assert(s.remove(at)[n - 2] == s[n - 1]);
    } else {
        lemma_dir_count_same(s.remove(at), s, direction, at);
    }
}

/// Every attribute of the direction `direction` has a table for its words among `n`
/// tables: the table of its culture, and at least one table in any case.
pub open spec fn culture_fits(s: Seq<(Seq<char>, Attr)>, direction: Direction, n: int) -> bool {
    forall|i: int|
        0 <= i < s.len() && (#[trigger] s[i]).1.direction == direction ==> n >= 1 && (
        s[i].1.culture matches Some(c) ==> c < n)
}

/// The indices of the attributes of every direction but `direction` are their ranks.
pub open spec fn ranked_but(s: Seq<(Seq<char>, Attr)>, direction: Direction) -> bool {
    forall|i: int|
        0 <= i < s.len() && (#[trigger] s[i]).1.direction != direction ==> s[i].1.index == dir_count(
            s,
            s[i].1.direction,
            i,
        )
}

/// With one entry removed, the names stay distinct, the attributes of the other
/// direction keep their ranks and their tables.
pub proof fn lemma_entry_removed(s: Seq<(Seq<char>, Attr)>, at: int, n: int)
    requires
        0 <= at < s.len(),
        names_distinct(s),
        ranked(s),
    ensures
        names_distinct(s.remove(at)),
        ranked_but(s.remove(at), s[at].1.direction),
        forall|d: Direction| culture_fits(s, d, n) ==> culture_fits(s.remove(at), d, n),
{
    let t = s.remove(at);
    assert forall|i: int, j: int| 0 <= i < j < t.len() implies (#[trigger] t[i]).0 != (#[trigger] t[j]).0 by {
        let x = if i < at { i } else { i + 1 };
        let y = if j < at { j } else { j + 1 };
        assert(t[i] == s[x] && t[j] == s[y]);
    }
    assert forall|i: int| 0 <= i < t.len() && (#[trigger] t[i]).1.direction != s[at].1.direction implies t[i].1.index
        == dir_count(t, t[i].1.direction, i) by {
        let d = t[i].1.direction;
        if i < at {
            assert(t[i] == s[i]);
            lemma_dir_count_same(t, s, d, i);
        } else {
            assert(t[i] == s[i + 1]);
            lemma_dir_count_skip(s, at, d, i + 1);
        }
    }
    assert forall|d: Direction| culture_fits(s, d, n) implies culture_fits(t, d, n) by {
        assert forall|i: int| 0 <= i < t.len() && (#[trigger] t[i]).1.direction == d implies n >= 1 && (
        t[i].1.culture matches Some(c) ==> c < n) by {
            let x = if i < at { i } else { i + 1 };
            assert(t[i] == s[x]);
        }
    }
}

/// With one entry of a new name added last, the names stay distinct, the attributes of
/// the other direction keep their ranks and their tables.
pub proof fn lemma_entry_added(s: Seq<(Seq<char>, Attr)>, name: Seq<char>, attr: Attr, n: int)
    requires
        names_distinct(s),
        ranked(s),
        position_of(s, name) >= s.len(),
    ensures
        names_distinct(s.push((name, attr))),
        ranked_but(s.push((name, attr)), attr.direction),
        forall|d: Direction|
            d != attr.direction && culture_fits(s, d, n) ==> culture_fits(s.push((name, attr)), d, n),
{
    let t = s.push((name, attr));
    lemma_position_from(s, name, 0);
    assert forall|i: int| 0 <= i < t.len() && (#[trigger] t[i]).1.direction != attr.direction implies t[i].1.index
        == dir_count(t, t[i].1.direction, i) by {
        assert(t[i] == s[i]);
        lemma_dir_count_same(t, s, t[i].1.direction, i);
    }
    assert forall|d: Direction| d != attr.direction && culture_fits(s, d, n) implies culture_fits(t, d, n) by {
        assert forall|i: int| 0 <= i < t.len() && (#[trigger] t[i]).1.direction == d implies n >= 1 && (
        t[i].1.culture matches Some(c) ==> c < n) by {
            assert(t[i] == s[i]);
        }
    }
}

/// Renumbering a direction leaves the attributes of every direction their tables.
pub proof fn lemma_renumbered_fits(s: Seq<(Seq<char>, Attr)>, direction: Direction, d: Direction, n: int)
    requires
        culture_fits(s, d, n),
    ensures
        culture_fits(renumbered(s, direction), d, n),
{
    let t = renumbered(s, direction);
    assert forall|i: int| 0 <= i < t.len() && (#[trigger] t[i]).1.direction == d implies n >= 1 && (
    t[i].1.culture matches Some(c) ==> c < n) by {
        assert(s[i].1.direction == d);
    }
}

/// The attributes of a direction have their tables where there are as many tables as
/// the attributes ask for.
pub proof fn lemma_count_fits(s: Seq<(Seq<char>, Attr)>, d: Direction)
    ensures
        culture_fits(s, d, culture_count(s)),
{
    lemma_culture_count(s);
}

/// The culture of each attribute position of the direction `direction`: those of the
/// attributes of that direction, in the order of registration.
pub open spec fn cultures_of(s: Seq<(Seq<char>, Attr)>, direction: Direction) -> Seq<Option<u8>>
    decreases s.len(),
{
    if s.len() == 0 {
        Seq::empty()
    } else {
        let rest = cultures_of(s.drop_last(), direction);
        if s.last().1.direction == direction {
            rest.push(s.last().1.culture)
        } else {
            rest
        }
    }
}

/// The indices of the attributes of the direction `direction` are their ranks.
pub open spec fn ranked_in(s: Seq<(Seq<char>, Attr)>, direction: Direction) -> bool {
    forall|i: int|
        0 <= i < s.len() && (#[trigger] s[i]).1.direction == direction ==> s[i].1.index == dir_count(
            s,
            direction,
            i,
        )
}

/// Some attribute of the direction `direction` has the index `a`.
pub open spec fn position_taken(s: Seq<(Seq<char>, Attr)>, direction: Direction, a: int) -> bool {
    exists|i: int| 0 <= i < s.len() && (#[trigger] s[i]).1.direction == direction && s[i].1.index == a
}

/// The front of ranked entries is ranked.
proof fn lemma_ranked_front(s: Seq<(Seq<char>, Attr)>, direction: Direction)
    requires
        ranked_in(s, direction),
        s.len() > 0,
    ensures
        ranked_in(s.drop_last(), direction),
{
    let t = s.drop_last();
    assert forall|i: int| 0 <= i < t.len() && (#[trigger] t[i]).1.direction == direction implies t[i].1.index
        == dir_count(t, direction, i) by {
        assert(t[i] == s[i]);
        lemma_dir_count_same(t, s, direction, i);
    }
}

/// There are as many attribute positions as attributes of the direction, the position
/// of an attribute is its index, and every position is that of an attribute.
pub proof fn lemma_cultures_of(s: Seq<(Seq<char>, Attr)>, direction: Direction)
    requires
        ranked_in(s, direction),
    ensures
        cultures_of(s, direction).len() == dir_count(s, direction, s.len() as int),
        forall|i: int|
            0 <= i < s.len() && (#[trigger] s[i]).1.direction == direction ==> 0 <= s[i].1.index < cultures_of(
                s,
                direction,
            ).len() && cultures_of(s, direction)[s[i].1.index as int] == s[i].1.culture,
        forall|a: int| 0 <= a < cultures_of(s, direction).len() ==> #[trigger] position_taken(s, direction, a),
    decreases s.len(),
{
    if s.len() > 0 {
        let t = s.drop_last();
        let cs = cultures_of(s, direction);
        lemma_ranked_front(s, direction);
        lemma_cultures_of(t, direction);
        lemma_dir_count_same(t, s, direction, t.len() as int);
        lemma_dir_count_bounds(s, direction, t.len() as int);
        assert forall|i: int| 0 <= i < s.len() && (#[trigger] s[i]).1.direction == direction implies 0
            <= s[i].1.index < cs.len() && cs[s[i].1.index as int] == s[i].1.culture by {
            if i < t.len() {
                assert(t[i] == s[i]);
            }
        }
        assert forall|a: int| 0 <= a < cs.len() implies #[trigger] position_taken(s, direction, a) by {
            if a < cultures_of(t, direction).len() {
                assert(position_taken(t, direction, a));
                let i = choose|i: int|
                    0 <= i < t.len() && (#[trigger] t[i]).1.direction == direction && t[i].1.index == a;
                assert(s[i] == t[i]);
            } else {
                assert(s[s.len() - 1].1.index == a);
            }
        }
    }
}

/// The attribute positions without a culture are among the positions that new tables
/// are built from.
pub proof fn lemma_positions(s: Seq<(Seq<char>, Attr)>, direction: Direction, a: int)
    requires
        ranked_in(s, direction),
        0 <= a < cultures_of(s, direction).len(),
        cultures_of(s, direction)[a] is None,
    ensures
        cultureless_positions(s, direction).contains(a),
    decreases s.len(),
{
    if s.len() > 0 {
        let t = s.drop_last();
        lemma_ranked_front(s, direction);
        lemma_cultures_of(t, direction);
        lemma_cultures_of(s, direction);
        lemma_dir_count_same(t, s, direction, t.len() as int);
        let rest = cultureless_positions(t, direction);
        if a < cultures_of(t, direction).len() {
            lemma_positions(t, direction, a);
            let k = choose|k: int| 0 <= k < rest.len() && rest[k] == a;
            assert(cultureless_positions(s, direction)[k] == a);
        } else {
            assert(s.last().1.index == a);
            assert(cultureless_positions(s, direction) == rest.push(a));
            assert(rest.push(a)[rest.len() as int] == a);
        }
    }
}

/// The cultures of the attribute positions depend on the directions and cultures of the
/// entries alone.
pub proof fn lemma_cultures_same(s: Seq<(Seq<char>, Attr)>, t: Seq<(Seq<char>, Attr)>, direction: Direction)
    requires
        s.len() == t.len(),
        forall|i: int|
            0 <= i < s.len() ==> (#[trigger] s[i]).1.direction == t[i].1.direction && s[i].1.culture
                == t[i].1.culture,
    ensures
        cultures_of(s, direction) == cultures_of(t, direction),
    decreases s.len(),
{
    if s.len() > 0 {
        assert forall|i: int| 0 <= i < s.drop_last().len() implies (#[trigger] s.drop_last()[i]).1.direction
            == t.drop_last()[i].1.direction && s.drop_last()[i].1.culture == t.drop_last()[i].1.culture by {
            assert(s.drop_last()[i] == s[i]);
        }
        assert(s[s.len() - 1].1.direction == t[s.len() - 1].1.direction);
        lemma_cultures_same(s.drop_last(), t.drop_last(), direction);
    }
}

/// With an entry removed, its direction loses the attribute position of its rank, and
/// the other direction keeps its positions.
pub proof fn lemma_cultures_removed(s: Seq<(Seq<char>, Attr)>, at: int, direction: Direction)
    requires
        0 <= at < s.len(),
    ensures
        cultures_of(s.remove(at), direction) == if s[at].1.direction == direction {
            cultures_of(s, direction).remove(dir_count(s, direction, at))
        } else {
            cultures_of(s, direction)
        },
        cultures_of(s, direction).len() == dir_count(s, direction, s.len() as int),
        0 <= dir_count(s, direction, at) <= at,
    decreases s.len(),
{
    lemma_cultures_len(s, direction);
    lemma_dir_count_bounds(s, direction, at);
    let t = s.drop_last();
    if at == s.len() - 1 {
        assert(s.remove(at) =~= t);
        lemma_cultures_len(t, direction);
        lemma_dir_count_same(t, s, direction, at);
        if s[at].1.direction == direction {
            assert(cultures_of(s, direction).remove(dir_count(s, direction, at)) =~= cultures_of(t, direction));
        }
    } else {
        lemma_cultures_removed(t, at, direction);
        assert(s.remove(at).drop_last() =~= t.remove(at));
        assert(s.remove(at).last() == s.last());
        lemma_dir_count_same(t, s, direction, at);
        lemma_cultures_len(t, direction);
        lemma_dir_count_mono(t, direction, at, t.len() as int);
        if s[at].1.direction == direction {
            let k = dir_count(s, direction, at);
            assert(t[at] == s[at]);
            assert(dir_count(t, direction, at + 1) == k + 1);
            lemma_dir_count_mono(t, direction, at + 1, t.len() as int);
            if s.last().1.direction == direction {
                assert(cultures_of(t, direction).remove(k).push(s.last().1.culture) =~= cultures_of(
                    t,
                    direction,
                ).push(s.last().1.culture).remove(k));
            }
        }
    }
}

/// There are as many attribute positions as attributes of the direction.
pub proof fn lemma_cultures_len(s: Seq<(Seq<char>, Attr)>, direction: Direction)
    ensures
        cultures_of(s, direction).len() == dir_count(s, direction, s.len() as int),
    decreases s.len(),
{
    if s.len() > 0 {
        lemma_cultures_len(s.drop_last(), direction);
        lemma_dir_count_same(s.drop_last(), s, direction, s.len() - 1);
    }
}

/// The count of a direction does not fall as more entries are counted.
pub proof fn lemma_dir_count_mono(s: Seq<(Seq<char>, Attr)>, direction: Direction, m: int, n: int)
    requires
        0 <= m <= n,
    ensures
        dir_count(s, direction, m) <= dir_count(s, direction, n),
    decreases n - m,
{
    if m < n {
        lemma_dir_count_mono(s, direction, m, n - 1);
    }
}

} // verus!
