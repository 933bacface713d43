//! Fuzzy matching by a Levenshtein prefix automaton of the `levenshtein_automata` crate.
//!
//! The automaton is not modelled. What it is for a query word, and what it answers on a
//! text, have names; the library's rules for choosing the number of edits and for turning
//! an answer into a distance are verified over those names.

use levenshtein_automata::{Distance, LevenshteinAutomatonBuilder, DFA};
use vstd::prelude::*;

verus! {

#[verifier::external_type_specification]
#[verifier::external_body]
pub struct ExDfa(DFA);

/// The automaton that `LevenshteinAutomatonBuilder::build_prefix_dfa` returns for `word`,
/// from a builder made for at most `max_edits` edits in which a transposition counts as one.
pub uninterp spec fn prefix_dfa(max_edits: u8, word: Seq<char>) -> DFA;

/// What `DFA::eval` answers on the UTF-8 encoding of `text`: `Some(k)` where it answers
/// `Distance::Exact(k)`, `None` where it answers `Distance::AtLeast(_)`.
pub uninterp spec fn dfa_distance(dfa: &DFA, text: Seq<char>) -> Option<u8>;

/// `LevenshteinAutomatonBuilder::new(max_edits, true)` followed by `build_prefix_dfa`.
/// The automaton depends on the two arguments alone.
#[verifier::external_body]
pub(crate) fn build_prefix_dfa(max_edits: u8, word: &Vec<char>) -> (dfa: DFA)
    requires
        1 <= max_edits <= 3,
    ensures
        dfa == prefix_dfa(max_edits, word@),
{
    let query: String = word.iter().collect();
    LevenshteinAutomatonBuilder::new(max_edits, true).build_prefix_dfa(&query)
}

/// `DFA::eval` on the UTF-8 encoding of `text`. The answer depends on the automaton and
/// the text alone.
#[verifier::external_body]
pub(crate) fn dfa_eval(dfa: &DFA, text: &Vec<char>) -> (r: Option<u8>)
    ensures
        r == dfa_distance(dfa, text@),
{
    match dfa.eval(text.iter().collect::<String>()) {
        Distance::Exact(k) => Some(k),
        Distance::AtLeast(_) => None,
    }
}

/// The number of edits that a query word of `len` characters tolerates, or `None` where
/// the word is too short for fuzzy matching.
pub open spec fn max_edits(len: nat) -> Option<u8> {
    if len <= 2 {
        None
    } else if len <= 5 {
        Some(1u8)
    } else if len <= 8 {
        Some(2u8)
    } else {
        Some(3u8)
    }
}

/// The automaton for a query word, or `None` where the word is too short for one.
pub open spec fn spec_create_dfa(word: Seq<char>) -> Option<DFA> {
    match max_edits(word.len()) {
        Some(k) => Some(prefix_dfa(k, word)),
        None => None,
    }
}

/// Builds the automaton for a query word: none up to 2 characters, then one that
/// tolerates 1 edit up to 5 characters, 2 edits up to 8, and 3 edits beyond.
pub fn create_dfa(word: &Vec<char>) -> (r: Option<DFA>)
    ensures
        r == spec_create_dfa(word@),
{
    let n = word.len();
    if n <= 2 {
        None
    } else if n <= 5 {
        Some(build_prefix_dfa(1, word))
    } else if n <= 8 {
        Some(build_prefix_dfa(2, word))
    } else {
        Some(build_prefix_dfa(3, word))
    }
}

} // verus!
