//! The tiers of attributes that documents are ranked by: the attributes of one priority
//! together, the tiers in ascending order of priority.
//!
//! The attributes are gathered by priority in an `indexmap::IndexMap`, which is then sorted
//! by its keys; what Verus knows of that map is stated here and nowhere proved. That the
//! outcome is the tiers as they are defined is proved.

use crate::attr_map::{attr_entries, attr_map_get_index, attr_map_len, Attr, AttrMap};
use crate::direction::Direction;
use fxhash::FxBuildHasher;
use indexmap::IndexMap;
use vstd::prelude::*;

verus! {

broadcast use vstd::seq_lib::group_seq_properties;

/// A tier: a priority, and the attributes of that priority as direction and index.
pub type Tier = (u8, Vec<(Direction, usize)>);

/// A tier, as plain values.
pub type TierModel = (u8, Seq<(Direction, usize)>);

/// What a list of tiers holds.
pub open spec fn tiers_view(s: Seq<Tier>) -> Seq<TierModel> {
    s.map_values(|t: Tier| (t.0, t.1@))
}

/// Whether an attribute counts for queries of the culture `culture`: it has that culture
/// or none.
pub open spec fn in_culture(attr: Attr, culture: u8) -> bool {
    match attr.culture {
        None => true,
        Some(c) => c == culture,
    }
}

/// The attributes of priority `priority` that count for `culture`, among the first `n`
/// entries, in the order of registration.
pub open spec fn tier_members(s: Seq<(Seq<char>, Attr)>, culture: u8, priority: u8, n: int) -> Seq<
    (Direction, usize),
>
    decreases n,
{
    if n <= 0 {
        Seq::empty()
    } else {
        let rest = tier_members(s, culture, priority, n - 1);
        let attr = s[n - 1].1;
        if in_culture(attr, culture) && attr.priority == priority {
            rest.push((attr.direction, attr.index))
        } else {
            rest
        }
    }
}

/// The tiers of the priorities below `p`, in ascending order of priority. A priority
/// without attributes has no tier.
pub open spec fn tiers_upto(s: Seq<(Seq<char>, Attr)>, culture: u8, p: int) -> Seq<TierModel>
    decreases p,
{
    if p <= 0 {
        Seq::empty()
    } else {
        let rest = tiers_upto(s, culture, p - 1);
        let members = tier_members(s, culture, (p - 1) as u8, s.len() as int);
        if members.len() > 0 {
            rest.push(((p - 1) as u8, members))
        } else {
            rest
        }
    }
}

/// The tiers for queries of the culture `culture`.
pub open spec fn tiers(s: Seq<(Seq<char>, Attr)>, culture: u8) -> Seq<TierModel> {
    tiers_upto(s, culture, 256)
}

/// The tiers ascend strictly by priority, and none is empty.
pub proof fn lemma_tiers_ascend(s: Seq<(Seq<char>, Attr)>, culture: u8, p: int)
    requires
        0 <= p <= 256,
    ensures
        forall|i: int|
            0 <= i < tiers_upto(s, culture, p).len() ==> {
                &&& (#[trigger] tiers_upto(s, culture, p)[i]).0 < p
                &&& tiers_upto(s, culture, p)[i].1.len() > 0
                &&& tiers_upto(s, culture, p)[i].1 == tier_members(
                    s,
                    culture,
                    tiers_upto(s, culture, p)[i].0,
                    s.len() as int,
                )
            },
        forall|i: int, j: int|
            0 <= i < j < tiers_upto(s, culture, p).len() ==> (#[trigger] tiers_upto(s, culture, p)[i]).0
                < (#[trigger] tiers_upto(s, culture, p)[j]).0,
    decreases p,
{
    if p > 0 {
        lemma_tiers_ascend(s, culture, p - 1);
        let rest = tiers_upto(s, culture, p - 1);
        let cur = tiers_upto(s, culture, p);
        assert forall|i: int| 0 <= i < cur.len() implies {
            &&& (#[trigger] cur[i]).0 < p
            &&& cur[i].1.len() > 0
            &&& cur[i].1 == tier_members(s, culture, cur[i].0, s.len() as int)
        } by {
            if i < rest.len() {
                assert(cur[i] == rest[i]);
            }
        }
        assert forall|i: int, j: int| 0 <= i < j < cur.len() implies (#[trigger] cur[i]).0 < (
        #[trigger] cur[j]).0 by {
            assert(cur[i] == rest[i]);
            if j < rest.len() {
                assert(cur[j] == rest[j]);
            }
        }
    }
}

/// The attributes gathered so far, by priority, in the order in which the priorities
/// were first met.
pub type TierMap = IndexMap<u8, Vec<(Direction, usize)>, FxBuildHasher>;

/// The entries of the map in order: each priority with the attributes filed under it.
pub uninterp spec fn tier_entries(m: &TierMap) -> Seq<TierModel>;

/// The first position at or after `from` whose entry has the priority `priority`, or the
/// length of `s` where there is none.
pub open spec fn tier_position_from(s: Seq<TierModel>, priority: u8, from: int) -> int
    decreases s.len() - from,
{
    if from < 0 || from >= s.len() {
        s.len() as int
    } else if s[from].0 == priority {
        from
    } else {
        tier_position_from(s, priority, from + 1)
    }
}

/// The first position whose entry has the priority `priority`, or the length of `s`
/// where there is none.
pub open spec fn tier_position(s: Seq<TierModel>, priority: u8) -> int {
    tier_position_from(s, priority, 0)
}

/// The attributes filed under `priority`: none where no entry has that priority.
pub open spec fn members_in(s: Seq<TierModel>, priority: u8) -> Seq<(Direction, usize)> {
    if tier_position(s, priority) < s.len() {
        s[tier_position(s, priority)].1
    } else {
        Seq::empty()
    }
}

/// The entries with `members` filed under `priority`: in the place of the entry of that
/// priority, or last where there is none.
pub open spec fn with_members(s: Seq<TierModel>, priority: u8, members: Seq<(Direction, usize)>) -> Seq<
    TierModel,
> {
    if tier_position(s, priority) < s.len() {
        s.update(tier_position(s, priority), (priority, members))
    } else {
        s.push((priority, members))
    }
}

/// `IndexMap::default`: a map without entries.
#[verifier::external_body]
fn tier_map_new() -> (m: TierMap)
    ensures
        tier_entries(&m) == Seq::<TierModel>::empty(),
{
    IndexMap::default()
}

/// `IndexMap::entry` with `Entry::or_default`: the list filed under `priority`, to be
/// changed in place. Where no entry has that priority, an empty list is filed under it,
/// last.
#[verifier::external_body]
fn tier_map_slot(m: &mut TierMap, priority: u8) -> (slot: &mut Vec<(Direction, usize)>)
    ensures
        slot@ == members_in(tier_entries(old(m)), priority),
        tier_entries(final(m)) == with_members(tier_entries(old(m)), priority, final(slot)@),
{
    m.entry(priority).or_default()
}

/// `IndexMap::sort_unstable_keys`: the same entries, in ascending order of their
/// priorities. No two entries of a map have the same priority, so they ascend strictly.
#[verifier::external_body]
fn tier_map_sort_keys(m: &mut TierMap)
    ensures
        forall|e: TierModel| tier_entries(final(m)).contains(e) <==> tier_entries(old(m)).contains(e),
        forall|i: int, j: int|
            0 <= i < j < tier_entries(final(m)).len() ==> (#[trigger] tier_entries(final(m))[i]).0 < (
            #[trigger] tier_entries(final(m))[j]).0,
{
    m.sort_unstable_keys();
}

/// `IntoIterator` of `IndexMap`, collected: the entries in order.
#[verifier::external_body]
fn tier_map_into_vec(m: TierMap) -> (r: Vec<Tier>)
    ensures
        tiers_view(r@) == tier_entries(&m),
{
    m.into_iter().collect()
}

/// The position of a priority is that of the first entry that has it, and lies within
/// the entries exactly where there is one.
proof fn lemma_tier_position(s: Seq<TierModel>, priority: u8, from: int)
    requires
        0 <= from <= s.len(),
    ensures
        from <= tier_position_from(s, priority, from) <= s.len(),
        tier_position_from(s, priority, from) < s.len() ==> s[tier_position_from(s, priority, from)].0 == priority,
        forall|i: int| from <= i < tier_position_from(s, priority, from) ==> (#[trigger] s[i]).0 != priority,
    decreases s.len() - from,
{
    if from < s.len() && s[from].0 != priority {
        lemma_tier_position(s, priority, from + 1);
    }
}

/// The entries are the attributes of the first `n` registered, gathered by priority: no
/// priority has two entries, every entry holds the attributes of its priority and at
/// least one, and every priority that has an attribute has an entry.
pub open spec fn gathered(g: Seq<TierModel>, s: Seq<(Seq<char>, Attr)>, culture: u8, n: int) -> bool {
    &&& forall|i: int, j: int| 0 <= i < j < g.len() ==> (#[trigger] g[i]).0 != (#[trigger] g[j]).0
    &&& forall|i: int|
        0 <= i < g.len() ==> (#[trigger] g[i]).1 == tier_members(s, culture, g[i].0, n) && g[i].1.len() > 0
    &&& forall|p: u8| tier_members(s, culture, p, n).len() > 0 ==> tier_position(g, p) < g.len()
}

/// Filing the next attribute under its priority keeps the entries gathered.
proof fn lemma_gathered_step(g: Seq<TierModel>, s: Seq<(Seq<char>, Attr)>, culture: u8, n: int)
    requires
        0 <= n < s.len(),
        gathered(g, s, culture, n),
    ensures
        in_culture(s[n].1, culture) ==> gathered(
            with_members(
                g,
                s[n].1.priority,
                members_in(g, s[n].1.priority).push((s[n].1.direction, s[n].1.index)),
            ),
            s,
            culture,
            n + 1,
        ),
        !in_culture(s[n].1, culture) ==> gathered(g, s, culture, n + 1),
{
    let attr = s[n].1;
    let p = attr.priority;
    if in_culture(attr, culture) {
        let item = (attr.direction, attr.index);
        let at = tier_position(g, p);
        lemma_tier_position(g, p, 0);
        let members = members_in(g, p).push(item);
        let r = with_members(g, p, members);
        if at < g.len() {
            assert(g[at].1 == tier_members(s, culture, p, n));
        } else {
            assert(tier_members(s, culture, p, n).len() == 0);
            assert(tier_members(s, culture, p, n) =~= Seq::empty());
        }
        assert(members == tier_members(s, culture, p, n + 1));
        assert forall|i: int, j: int| 0 <= i < j < r.len() implies (#[trigger] r[i]).0 != (#[trigger] r[j]).0 by {
            if at < g.len() {
                assert(r[i].0 == g[i].0 && r[j].0 == g[j].0);
            } else if j == g.len() {
                assert(r[i] == g[i]);
            } else {
                assert(r[i] == g[i] && r[j] == g[j]);
            }
        }
        assert forall|i: int| 0 <= i < r.len() implies (#[trigger] r[i]).1 == tier_members(s, culture, r[i].0, n + 1)
            && r[i].1.len() > 0 by {
            if i != at {
                assert(r[i] == g[i]);
                assert(g[i].0 != p) by {
                    if at < g.len() {
                        if i < at {
                            assert(g[i].0 != g[at].0);
                        } else {
                            assert(g[at].0 != g[i].0);
                        }
                    }
                }
            }
        }
        assert forall|q: u8| tier_members(s, culture, q, n + 1).len() > 0 implies tier_position(r, q) < r.len() by {
            lemma_tier_position(r, q, 0);
            if q == p {
                if at < g.len() {
                    assert(r[at].0 == q);
                } else {
                    assert(r[g.len() as int].0 == q);
                }
            } else {
                assert(tier_members(s, culture, q, n).len() > 0);
                lemma_tier_position(g, q, 0);
                let i = tier_position(g, q);
                assert(r[i].0 == q);
            }
        }
    } else {
        assert forall|i: int| 0 <= i < g.len() implies (#[trigger] g[i]).1 == tier_members(s, culture, g[i].0, n + 1)
            && g[i].1.len() > 0 by {}
    }
}

/// Every priority below `p` that has an attribute has its tier.
proof fn lemma_tiers_complete(s: Seq<(Seq<char>, Attr)>, culture: u8, p: int, q: u8)
    requires
        0 <= q < p <= 256,
        tier_members(s, culture, q, s.len() as int).len() > 0,
    ensures
        tiers_upto(s, culture, p).contains((q, tier_members(s, culture, q, s.len() as int))),
    decreases p,
{
    let rest = tiers_upto(s, culture, p - 1);
    let cur = tiers_upto(s, culture, p);
    if q == p - 1 {
        assert(cur[cur.len() - 1] == (q, tier_members(s, culture, q, s.len() as int)));
    } else {
        lemma_tiers_complete(s, culture, p - 1, q);
        let i = choose|i: int| 0 <= i < rest.len() && rest[i] == (q, tier_members(s, culture, q, s.len() as int));
        assert(cur[i] == rest[i]);
    }
}

/// Two lists of tiers that ascend strictly by priority and hold the same tiers are the
/// same list.
proof fn lemma_ascending_same(a: Seq<TierModel>, b: Seq<TierModel>)
    requires
        forall|i: int, j: int| 0 <= i < j < a.len() ==> (#[trigger] a[i]).0 < (#[trigger] a[j]).0,
        forall|i: int, j: int| 0 <= i < j < b.len() ==> (#[trigger] b[i]).0 < (#[trigger] b[j]).0,
        forall|e: TierModel| a.contains(e) <==> b.contains(e),
    ensures
        a == b,
    decreases a.len(),
{
    if a.len() == 0 {
        if b.len() > 0 {
            assert(b.contains(b[0]));
        }
        assert(a =~= b);
    } else {
        let x = a.last();
        assert(a.contains(x));
        let j = choose|j: int| 0 <= j < b.len() && b[j] == x;
        let y = b.last();
        assert(b.contains(y));
        let i = choose|i: int| 0 <= i < a.len() && a[i] == y;
        if i < a.len() - 1 {
            assert(a[i].0 < a[a.len() - 1].0);
        }
        if j < b.len() - 1 {
            assert(b[j].0 < b[b.len() - 1].0);
        }
        assert(x == y);
        let ar = a.drop_last();
        let br = b.drop_last();
        assert forall|e: TierModel| ar.contains(e) <==> br.contains(e) by {
            if ar.contains(e) {
                let k = choose|k: int| 0 <= k < ar.len() && ar[k] == e;
                assert(a[k] == e);
                assert(a[k].0 < a[a.len() - 1].0);
                assert(a.contains(e));
                let m = choose|m: int| 0 <= m < b.len() && b[m] == e;
                assert(m < b.len() - 1);
                assert(br[m] == e);
            }
            if br.contains(e) {
                let k = choose|k: int| 0 <= k < br.len() && br[k] == e;
                assert(b[k] == e);
                assert(b[k].0 < b[b.len() - 1].0);
                assert(b.contains(e));
                let m = choose|m: int| 0 <= m < a.len() && a[m] == e;
                assert(m < a.len() - 1);
                assert(ar[m] == e);
            }
        }
        assert forall|i: int, j: int| 0 <= i < j < ar.len() implies (#[trigger] ar[i]).0 < (#[trigger] ar[j]).0 by {
            assert(ar[i] == a[i] && ar[j] == a[j]);
        }
        assert forall|i: int, j: int| 0 <= i < j < br.len() implies (#[trigger] br[i]).0 < (#[trigger] br[j]).0 by {
            assert(br[i] == b[i] && br[j] == b[j]);
        }
        lemma_ascending_same(ar, br);
        assert(a =~= ar.push(x));
        assert(b =~= br.push(y));
    }
}

/// Entries that are gathered from all the attributes and ascend strictly by priority are
/// the tiers.
proof fn lemma_gathered_sorted(g: Seq<TierModel>, sorted: Seq<TierModel>, s: Seq<(Seq<char>, Attr)>, culture: u8)
    requires
        gathered(g, s, culture, s.len() as int),
        forall|e: TierModel| sorted.contains(e) <==> g.contains(e),
        forall|i: int, j: int| 0 <= i < j < sorted.len() ==> (#[trigger] sorted[i]).0 < (#[trigger] sorted[j]).0,
    ensures
        sorted == tiers(s, culture),
{
    let t = tiers(s, culture);
    let n = s.len() as int;
    lemma_tiers_ascend(s, culture, 256);
    assert forall|e: TierModel| sorted.contains(e) <==> t.contains(e) by {
        if sorted.contains(e) {
            assert(g.contains(e));
            let i = choose|i: int| 0 <= i < g.len() && g[i] == e;
            assert(g[i].1 == tier_members(s, culture, g[i].0, n) && g[i].1.len() > 0);
            lemma_tiers_complete(s, culture, 256, e.0);
        }
        if t.contains(e) {
            let i = choose|i: int| 0 <= i < t.len() && t[i] == e;
            assert(t[i].1.len() > 0 && t[i].1 == tier_members(s, culture, t[i].0, n));
            lemma_tier_position(g, e.0, 0);
            let k = tier_position(g, e.0);
            assert(g[k].1 == tier_members(s, culture, g[k].0, n));
            assert(g[k] == e);
            assert(g.contains(e));
        }
    }
    lemma_ascending_same(sorted, t);
}

/// The tiers for queries of the culture `culture`, in ascending order of priority; the
/// attributes of a tier keep the order of their registration.
pub fn compute_attr_priorities(m: &AttrMap, culture: u8) -> (r: Vec<Tier>)
    ensures
        tiers_view(r@) == tiers(attr_entries(m), culture),
{
    let ghost s = attr_entries(m);
    let mut map = tier_map_new();
    let n = attr_map_len(m);
    let mut i: usize = 0;
    assert(gathered(tier_entries(&map), s, culture, 0)) by {
        assert forall|p: u8| tier_members(s, culture, p, 0).len() > 0 implies tier_position(tier_entries(&map), p)
            < tier_entries(&map).len() by {}
    }
    while i < n
        invariant
            0 <= i <= n,
            n == s.len(),
            s == attr_entries(m),
            gathered(tier_entries(&map), s, culture, i as int),
        decreases n - i,
    {
        proof {
            lemma_gathered_step(tier_entries(&map), s, culture, i as int);
        }
        if let Some(attr) = attr_map_get_index(m, i) {
            let counts = match attr.culture {
                None => true,
                Some(c) => c == culture,
            };
            if counts {
                let slot = tier_map_slot(&mut map, attr.priority);
                slot.push((attr.direction, attr.index));
            }
        }
        i += 1;
    }
    let ghost g = tier_entries(&map);
    tier_map_sort_keys(&mut map);
    proof {
        lemma_gathered_sorted(g, tier_entries(&map), s, culture);
    }
    tier_map_into_vec(map)
}

} // verus!
