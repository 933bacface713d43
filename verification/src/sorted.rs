//! Sequences kept in strictly ascending order of a word key, searched by bisection.
//!
//! The interner, the word tables and the reverse lookup are all such sequences. Strict
//! order means that no key occurs twice, so each is a finite map from words.

use crate::word::{lemma_lt_irreflexive, lemma_lt_transitive, place_of, word_lt, Place};
use vstd::prelude::*;

verus! {

/// Something filed under a word.
pub trait Keyed {
    /// The word that the item is filed under.
    spec fn key(&self) -> Seq<char>;

    /// The word that the item is filed under.
    fn key_ref(&self) -> (w: &Vec<char>)
        ensures
            w@ == self.key(),
    ;
}

impl Keyed for Vec<char> {
    open spec fn key(&self) -> Seq<char> {
        self@
    }

    fn key_ref(&self) -> (w: &Vec<char>) {
        self
    }
}

/// The keys ascend strictly.
pub open spec fn keys_sorted<T: Keyed>(s: Seq<T>) -> bool {
    forall|i: int, j: int| 0 <= i < j < s.len() ==> word_lt(#[trigger] s[i].key(), #[trigger] s[j].key())
}

/// Some item is filed under `w`.
pub open spec fn has_key<T: Keyed>(s: Seq<T>, w: Seq<char>) -> bool {
    exists|i: int| 0 <= i < s.len() && #[trigger] s[i].key() == w
}

/// The position of the item filed under `w`, for a word that has one.
pub open spec fn index_of<T: Keyed>(s: Seq<T>, w: Seq<char>) -> int {
    choose|i: int| 0 <= i < s.len() && #[trigger] s[i].key() == w
}

/// `at` is where `w` belongs: every key before it is smaller, every key from it on larger.
pub open spec fn is_gap<T: Keyed>(s: Seq<T>, w: Seq<char>, at: int) -> bool {
    &&& 0 <= at <= s.len()
    &&& forall|j: int| 0 <= j < at ==> word_lt(#[trigger] s[j].key(), w)
    &&& forall|j: int| at <= j < s.len() ==> word_lt(w, #[trigger] s[j].key())
}

/// In a sorted sequence a key has one position.
pub proof fn lemma_index_unique<T: Keyed>(s: Seq<T>, i: int, j: int)
    requires
        keys_sorted(s),
        0 <= i < s.len(),
        0 <= j < s.len(),
        s[i].key() == s[j].key(),
    ensures
        i == j,
{
    lemma_lt_irreflexive(s[i].key());
}

/// The position of a present key is the one position that holds it.
pub proof fn lemma_index_of<T: Keyed>(s: Seq<T>, i: int)
    requires
        keys_sorted(s),
        0 <= i < s.len(),
    ensures
        has_key(s, s[i].key()),
        index_of(s, s[i].key()) == i,
{
    let j = index_of(s, s[i].key());
    lemma_index_unique(s, i, j);
}

/// A word that belongs in a gap is not present.
pub proof fn lemma_gap_absent<T: Keyed>(s: Seq<T>, w: Seq<char>, at: int)
    requires
        is_gap(s, w, at),
    ensures
        !has_key(s, w),
{
    lemma_lt_irreflexive(w);
}

/// Filing a new item in its gap keeps the order, adds its key and moves no other item
/// out of reach.
pub proof fn lemma_insert<T: Keyed>(s: Seq<T>, at: int, x: T)
    requires
        keys_sorted(s),
        is_gap(s, x.key(), at),
    ensures
        keys_sorted(s.insert(at, x)),
        forall|w: Seq<char>| has_key(s.insert(at, x), w) <==> (w == x.key() || has_key(s, w)),
        forall|w: Seq<char>| #[trigger]
            has_key(s, w) ==> s.insert(at, x)[index_of(s.insert(at, x), w)] == s[index_of(s, w)],
        index_of(s.insert(at, x), x.key()) == at,
{
    let t = s.insert(at, x);
    assert forall|i: int, j: int| 0 <= i < j < t.len() implies word_lt(
        #[trigger] t[i].key(),
        #[trigger] t[j].key(),
    ) by {
        let a = if i < at { i } else { i - 1 };
        let b = if j < at { j } else { j - 1 };
        if i != at && j != at {
            assert(word_lt(s[a].key(), s[b].key()));
        } else if i == at {
            assert(word_lt(x.key(), s[b].key()));
        } else {
            assert(word_lt(s[a].key(), x.key()));
        }
    }
    assert(t[at] == x);
    lemma_index_of(t, at);
    assert forall|w: Seq<char>| has_key(t, w) <==> (w == x.key() || has_key(s, w)) by {
        if has_key(t, w) {
            let i = index_of(t, w);
            if i != at {
                let a = if i < at { i } else { i - 1 };
                assert(s[a].key() == w);
            }
        }
        if has_key(s, w) {
            let i = index_of(s, w);
            let b = if i < at { i } else { i + 1 };
            assert(t[b].key() == w);
        }
    }
    assert forall|w: Seq<char>| #[trigger] has_key(s, w) implies t[index_of(t, w)] == s[index_of(
        s,
        w,
    )] by {
        let i = index_of(s, w);
        let b = if i < at { i } else { i + 1 };
        assert(t[b] == s[i]);
        lemma_index_of(t, b);
    }
}

/// Taking an item out keeps the order, removes its key and no other.
pub proof fn lemma_remove<T: Keyed>(s: Seq<T>, at: int)
    requires
        keys_sorted(s),
        0 <= at < s.len(),
    ensures
        keys_sorted(s.remove(at)),
        forall|w: Seq<char>| has_key(s.remove(at), w) <==> (w != s[at].key() && has_key(s, w)),
        forall|w: Seq<char>| #[trigger]
            has_key(s.remove(at), w) ==> s.remove(at)[index_of(s.remove(at), w)] == s[index_of(s, w)],
{
    let t = s.remove(at);
    assert forall|i: int, j: int| 0 <= i < j < t.len() implies word_lt(
        #[trigger] t[i].key(),
        #[trigger] t[j].key(),
    ) by {
        let a = if i < at { i } else { i + 1 };
        let b = if j < at { j } else { j + 1 };
        assert(word_lt(s[a].key(), s[b].key()));
    }
    assert forall|w: Seq<char>| has_key(t, w) <==> (w != s[at].key() && has_key(s, w)) by {
        if has_key(t, w) {
            let i = index_of(t, w);
            let a = if i < at { i } else { i + 1 };
            assert(s[a].key() == w);
            lemma_index_of(s, a);
            if w == s[at].key() {
                lemma_index_unique(s, a, at);
            }
        }
        if w != s[at].key() && has_key(s, w) {
            let i = index_of(s, w);
            let b = if i < at { i } else { i - 1 };
            assert(t[b].key() == w);
        }
    }
    assert forall|w: Seq<char>| #[trigger] has_key(t, w) implies t[index_of(t, w)] == s[index_of(
        s,
        w,
    )] by {
        let i = index_of(t, w);
        let a = if i < at { i } else { i + 1 };
        assert(s[a] == t[i]);
        lemma_index_of(s, a);
    }
}

/// Replacing an item by one with the same key keeps the order and the keys.
pub proof fn lemma_update<T: Keyed>(s: Seq<T>, at: int, x: T)
    requires
        keys_sorted(s),
        0 <= at < s.len(),
        x.key() == s[at].key(),
    ensures
        keys_sorted(s.update(at, x)),
        forall|w: Seq<char>| has_key(s.update(at, x), w) <==> has_key(s, w),
        index_of(s.update(at, x), x.key()) == at,
        forall|w: Seq<char>| #[trigger]
            has_key(s, w) && w != x.key() ==> s.update(at, x)[index_of(s.update(at, x), w)]
                == s[index_of(s, w)],
{
    let t = s.update(at, x);
    assert forall|i: int, j: int| 0 <= i < j < t.len() implies word_lt(
        #[trigger] t[i].key(),
        #[trigger] t[j].key(),
    ) by {
        assert(word_lt(s[i].key(), s[j].key()));
    }
    lemma_index_of(t, at);
    assert forall|w: Seq<char>| has_key(t, w) <==> has_key(s, w) by {
        if has_key(t, w) {
            let i = index_of(t, w);
            assert(s[i].key() == w);
        }
        if has_key(s, w) {
            let i = index_of(s, w);
            assert(t[i].key() == w);
        }
    }
    assert forall|w: Seq<char>| #[trigger] has_key(s, w) && w != x.key() implies t[index_of(t, w)]
        == s[index_of(s, w)] by {
        let i = index_of(s, w);
        assert(t[i] == s[i]);
        lemma_index_of(t, i);
    }
}

/// Finds `w` by bisection: `Ok` with its position, or `Err` with the gap it belongs in.
pub fn search<T: Keyed>(v: &Vec<T>, w: &Vec<char>) -> (r: Result<usize, usize>)
    requires
        keys_sorted(v@),
    ensures
        match r {
            Ok(i) => i < v.len() && v@[i as int].key() == w@ && has_key(v@, w@) && index_of(v@, w@)
                == i,
            Err(i) => is_gap(v@, w@, i as int) && !has_key(v@, w@),
        },
{
    let mut lo: usize = 0;
    let mut hi: usize = v.len();
    while lo < hi
        invariant
            0 <= lo <= hi <= v.len(),
            keys_sorted(v@),
            forall|j: int| 0 <= j < lo ==> word_lt(#[trigger] v@[j].key(), w@),
            forall|j: int| hi <= j < v.len() ==> word_lt(w@, #[trigger] v@[j].key()),
        decreases hi - lo,
    {
        let mid = lo + (hi - lo) / 2;
        match place_of(v[mid].key_ref(), w) {
            Place::Same => {
                proof {
                    lemma_index_of(v@, mid as int);
                }
                return Ok(mid);
            },
            Place::Before => {
                proof {
                    assert forall|j: int| 0 <= j < mid + 1 implies word_lt(
                        #[trigger] v@[j].key(),
                        w@,
                    ) by {
                        if j < mid {
                            assert(word_lt(v@[j].key(), v@[mid as int].key()));
                            lemma_lt_transitive(v@[j].key(), v@[mid as int].key(), w@);
                        }
                    }
                }
                lo = mid + 1;
            },
            Place::After => {
                proof {
                    assert forall|j: int| mid <= j < v.len() implies word_lt(
                        w@,
                        #[trigger] v@[j].key(),
                    ) by {
                        if j > mid {
                            assert(word_lt(v@[mid as int].key(), v@[j].key()));
                            lemma_lt_transitive(w@, v@[mid as int].key(), v@[j].key());
                        }
                    }
                }
                hi = mid;
            },
        }
    }
    proof {
        lemma_gap_absent(v@, w@, lo as int);
    }
    Err(lo)
}

} // verus!
