//! The interner: one stored copy of every word that some word table of an index refers to.

use crate::chars::string_of;
use crate::sorted::{has_key, keys_sorted, lemma_insert, lemma_remove, search, Keyed};
use crate::word::{copy_of, word_lt};
use vstd::prelude::*;

verus! {

/// A set of words, stored in ascending order.
#[derive(Debug)]
pub struct StrIntern(pub(crate) Vec<Vec<char>>);

impl View for StrIntern {
    type V = Set<Seq<char>>;

    /// The words that are interned.
    closed spec fn view(&self) -> Set<Seq<char>> {
        Set::new(|w: Seq<char>| has_key(self.0@, w))
    }
}

impl StrIntern {
    /// The stored words ascend strictly, so none is stored twice.
    pub closed spec fn wf(&self) -> bool {
        keys_sorted(self.0@)
    }

    /// The stored words, in ascending order.
    pub closed spec fn words(&self) -> Seq<Seq<char>> {
        Seq::new(self.0@.len(), |i: int| self.0@[i]@)
    }

    /// The view is the set of the stored words, which ascend strictly.
    pub proof fn lemma_words(&self)
        requires
            self.wf(),
        ensures
            forall|w: Seq<char>| self@.contains(w) <==> self.words().contains(w),
            forall|i: int, j: int|
                0 <= i < j < self.words().len() ==> word_lt(
                    #[trigger] self.words()[i],
                    #[trigger] self.words()[j],
                ),
    {
        let ws = self.words();
        assert forall|w: Seq<char>| self@.contains(w) <==> ws.contains(w) by {
            if self@.contains(w) {
                let i = choose|i: int| 0 <= i < self.0@.len() && #[trigger] self.0@[i].key() == w;
                assert(ws[i] == w);
            }
            if ws.contains(w) {
                let i = choose|i: int| 0 <= i < ws.len() && ws[i] == w;
                assert(self.0@[i].key() == w);
            }
        }
        assert forall|i: int, j: int| 0 <= i < j < ws.len() implies word_lt(
            #[trigger] ws[i],
            #[trigger] ws[j],
        ) by {
            assert(word_lt(self.0@[i].key(), self.0@[j].key()));
        }
    }

    /// An interner that holds no word.
    pub fn new() -> (r: Self)
        ensures
            r.wf(),
            r@ == Set::<Seq<char>>::empty(),
            r.words() == Seq::<Seq<char>>::empty(),
    {
        let r = StrIntern(Vec::new());
        assert(r@ =~= Set::<Seq<char>>::empty());
        assert(r.words() =~= Seq::<Seq<char>>::empty());
        r
    }

    /// Whether `s` is interned.
    pub fn contains(&self, s: &Vec<char>) -> (r: bool)
        requires
            self.wf(),
        ensures
            r == self@.contains(s@),
    {
        search(&self.0, s).is_ok()
    }

    /// Interns `s`. Returns whether it was new; a word that is already interned is not
    /// stored again.
    pub fn insert(&mut self, s: &Vec<char>) -> (added: bool)
        requires
            old(self).wf(),
        ensures
            final(self).wf(),
            final(self)@ == old(self)@.insert(s@),
            added == !old(self)@.contains(s@),
    {
        match search(&self.0, s) {
            Ok(_) => {
                assert(self@ =~= old(self)@.insert(s@));
                false
            },
            Err(at) => {
                let word = copy_of(s);
                proof {
                    lemma_insert(self.0@, at as int, word);
                }
                self.0.insert(at, word);
                assert(self@ =~= old(self)@.insert(s@));
                true
            },
        }
    }

    /// The number of interned words.
    pub fn len(&self) -> (n: usize)
        ensures
            n == self.words().len(),
    {
        self.0.len()
    }

    /// Releases `s`. Nothing happens if it is not interned.
    pub fn remove(&mut self, s: &Vec<char>)
        requires
            old(self).wf(),
        ensures
            final(self).wf(),
            final(self)@ == old(self)@.remove(s@),
    {
        match search(&self.0, s) {
            Ok(at) => {
                proof {
                    lemma_remove(self.0@, at as int);
                }
                self.0.remove(at);
                assert(self@ =~= old(self)@.remove(s@));
            },
            Err(_) => {
                assert(self@ =~= old(self)@.remove(s@));
            },
        }
    }

    /// Releases every word.
    pub fn clear(&mut self)
        ensures
            final(self).wf(),
            final(self)@ == Set::<Seq<char>>::empty(),
    {
        self.0.clear();
        assert(self@ =~= Set::<Seq<char>>::empty());
    }

    /// The interned words as strings, in ascending order.
    pub fn to_strings(&self) -> (r: Vec<String>)
        ensures
            r@.len() == self.words().len(),
            forall|i: int| 0 <= i < r@.len() ==> (#[trigger] r@[i])@ == self.words()[i],
    {
        let mut out: Vec<String> = Vec::new();
        let mut i: usize = 0;
        while i < self.0.len()
            invariant
                0 <= i <= self.0.len(),
                out@.len() == i,
                forall|j: int| 0 <= j < i ==> (#[trigger] out@[j])@ == self.0@[j]@,
            decreases self.0.len() - i,
        {
            out.push(string_of(&self.0[i]));
            i += 1;
        }
        out
    }
}

impl Default for StrIntern {
    fn default() -> (r: Self)
        ensures
            r.wf(),
            r@ == Set::<Seq<char>>::empty(),
    {
        StrIntern::new()
    }
}

} // verus!
