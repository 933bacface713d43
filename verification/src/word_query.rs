//! One word of a query, with the operator to hold it against the index and what it asks
//! of the documents that match.
//!
//! The reversed word and the two automata for fuzzy matching are made when they are first
//! asked for, and kept with the word in `once_cell` cells. The word never changes once the
//! query word is made, so what a cell holds is what would be made from the word at any
//! time.

use crate::chars::{chars_of, string_of};
use crate::direction::Direction;
use crate::fuzzy::{create_dfa, spec_create_dfa};
use crate::index_model::directional;
use crate::presence::Presence;
use crate::word::{capped_len, reversed, spec_capped_len};
use crate::word_query_op::WordQueryOp;
use levenshtein_automata::DFA;
use once_cell::sync::OnceCell;
use vstd::prelude::*;

verus! {

#[verifier::external_type_specification]
#[verifier::external_body]
#[verifier::reject_recursive_types(T)]
pub struct ExOnceCell<T>(OnceCell<T>);

/// What a query word says, as plain values.
pub ghost struct WordQueryModel {
    pub index: usize,
    pub op: WordQueryOp,
    pub presence: Presence,
    pub word: Seq<char>,
}

/// A query word.
pub struct WordQuery {
    backward_dfa: OnceCell<Option<DFA>>,
    backward_word: OnceCell<Vec<char>>,
    dfa: OnceCell<Option<DFA>>,
    index: usize,
    op: WordQueryOp,
    presence: Presence,
    word: Vec<char>,
}

impl View for WordQuery {
    type V = WordQueryModel;

    closed spec fn view(&self) -> WordQueryModel {
        WordQueryModel { index: self.index, op: self.op, presence: self.presence, word: self.word@ }
    }
}

/// `OnceCell::new`: a cell that holds nothing yet.
#[verifier::external_body]
fn empty_cell<T>() -> (cell: OnceCell<T>) {
    OnceCell::new()
}

/// The automaton for fuzzy matches of `word` in a backward index, if the word is long
/// enough for one: that of the reversed word.
pub fn create_backward_dfa(word: &Vec<char>) -> (r: Option<DFA>)
    ensures
        r == spec_create_dfa(word@.reverse()),
{
    let backward = reversed(word);
    create_dfa(&backward)
}

impl WordQuery {
    /// The query word `word` at position `index` of its query.
    pub fn new(word: &str, op: WordQueryOp, presence: Presence, index: usize) -> (r: Self)
        ensures
            r@ == (WordQueryModel { index, op, presence, word: word@ }),
    {
        WordQuery::from_chars(chars_of(word), op, presence, index)
    }

    /// The query word made of the characters `word`, at position `index` of its query.
    pub fn from_chars(word: Vec<char>, op: WordQueryOp, presence: Presence, index: usize) -> (r: Self)
        ensures
            r@ == (WordQueryModel { index, op, presence, word: word@ }),
    {
        WordQuery {
            backward_dfa: empty_cell(),
            backward_word: empty_cell(),
            dfa: empty_cell(),
            index,
            op,
            presence,
            word,
        }
    }

    /// The position of the word in its query.
    pub fn index(&self) -> (r: usize)
        ensures
            r == self@.index,
    {
        self.index
    }

    /// The operator that holds the word against the indexed words.
    pub fn op(&self) -> (r: WordQueryOp)
        ensures
            r == self@.op,
    {
        self.op
    }

    /// What the word asks of the documents that match it.
    pub fn presence(&self) -> (r: Presence)
        ensures
            r == self@.presence,
    {
        self.presence
    }

    /// The word.
    pub fn word(&self) -> (r: &Vec<char>)
        ensures
            r@ == self@.word,
    {
        &self.word
    }

    /// Gives the word the operator `op`. The word itself stays, and with it what is kept
    /// of its reverse and its automata.
    pub fn set_op(&mut self, op: WordQueryOp)
        ensures
            final(self)@ == (WordQueryModel { op, ..old(self)@ }),
    {
        self.op = op;
    }

    /// The number of characters of the word, capped at 255.
    pub fn len(&self) -> (r: u8)
        ensures
            r == spec_capped_len(self@.word),
    {
        capped_len(&self.word)
    }

    /// The word as a string.
    pub fn word_string(&self) -> (r: String)
        ensures
            r@ == self@.word,
    {
        string_of(&self.word)
    }

    /// `OnceCell::get_or_init` on the cell of the reversed word: the word with its
    /// characters reversed, as a backward index stores words, made at the first call and
    /// kept. The cell is set by this function alone, from a word that never changes.
    #[verifier::external_body]
    pub(crate) fn backward_word(&self) -> (r: &Vec<char>)
        ensures
            r@ == self@.word.reverse(),
    {
        self.backward_word.get_or_init(|| reversed(&self.word))
    }

    /// The word as an index of the given orientation stores words.
    pub fn directional_word(&self, direction: Direction) -> (r: &Vec<char>)
        ensures
            r@ == directional(self@.word, direction),
    {
        match direction {
            Direction::Forward => &self.word,
            Direction::Backward => self.backward_word(),
        }
    }

    /// `OnceCell::get_or_init` on the cell of the forward automaton: the automaton for
    /// fuzzy matches in a forward index, if the word is long enough for one, made at the
    /// first call and kept. The cell is set by this function alone, from a word that
    /// never changes.
    #[verifier::external_body]
    pub(crate) fn dfa(&self) -> (r: Option<&DFA>)
        ensures
            r is Some == spec_create_dfa(self@.word) is Some,
            r matches Some(dfa) ==> spec_create_dfa(self@.word) == Some(*dfa),
    {
        self.dfa.get_or_init(|| create_dfa(&self.word)).as_ref()
    }

    /// `OnceCell::get_or_init` on the cell of the backward automaton: the automaton for
    /// fuzzy matches in a backward index, if the word is long enough for one, made at the
    /// first call and kept. The cell is set by this function alone, from a word that
    /// never changes.
    #[verifier::external_body]
    pub(crate) fn backward_dfa(&self) -> (r: Option<&DFA>)
        ensures
            r is Some == spec_create_dfa(self@.word.reverse()) is Some,
            r matches Some(dfa) ==> spec_create_dfa(self@.word.reverse()) == Some(*dfa),
    {
        self.backward_dfa.get_or_init(|| create_backward_dfa(&self.word)).as_ref()
    }
}

} // verus!
