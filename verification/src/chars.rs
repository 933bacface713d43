//! Character classes and case folding, as the standard library defines them.
//!
//! The Unicode tables behind these functions are not restated: each result has a name,
//! and the tokenizers are written over those names.

use vstd::prelude::*;

verus! {

/// What `char::is_alphabetic` returns.
pub uninterp spec fn is_alphabetic(c: char) -> bool;

/// What `char::is_numeric` returns.
pub uninterp spec fn is_numeric(c: char) -> bool;

/// What `char::is_whitespace` returns.
pub uninterp spec fn is_whitespace(c: char) -> bool;

/// The characters that `char::to_lowercase` yields, in order.
pub uninterp spec fn lowercase(c: char) -> Seq<char>;

/// Whether a character is a letter or a digit of any script.
pub open spec fn is_alphanumeric(c: char) -> bool {
    is_alphabetic(c) || is_numeric(c)
}

/// `char::is_alphabetic`.
#[verifier::external_body]
pub(crate) fn char_is_alphabetic(c: char) -> (r: bool)
    ensures
        r == is_alphabetic(c),
{
    c.is_alphabetic()
}

/// `char::is_numeric`.
#[verifier::external_body]
pub(crate) fn char_is_numeric(c: char) -> (r: bool)
    ensures
        r == is_numeric(c),
{
    c.is_numeric()
}

/// `char::is_whitespace`.
#[verifier::external_body]
pub(crate) fn char_is_whitespace(c: char) -> (r: bool)
    ensures
        r == is_whitespace(c),
{
    c.is_whitespace()
}

/// `char::to_lowercase`, collected: the lower-case mapping of one character, which may be
/// more than one character.
#[verifier::external_body]
pub(crate) fn char_lowercase(c: char) -> (r: Vec<char>)
    ensures
        r@ == lowercase(c),
{
    c.to_lowercase().collect()
}

/// `String::push`: appends one character.
#[verifier::external_body]
pub(crate) fn string_push(s: &mut String, c: char)
    ensures
        final(s)@ == old(s)@.push(c),
{
    s.push(c)
}

/// Whether a character is a letter or a digit (the standard library defines
/// `char::is_alphanumeric` as this disjunction).
pub(crate) fn char_is_alphanumeric(c: char) -> (r: bool)
    ensures
        r == is_alphanumeric(c),
{
    char_is_alphabetic(c) || char_is_numeric(c)
}

/// The characters of a string slice, in order.
pub fn chars_of(s: &str) -> (r: Vec<char>)
    ensures
        r@ == s@,
{
    let mut out: Vec<char> = Vec::new();
    for c in it: s.chars()
        invariant
            out@ == s@.take(it.index() as int),
            it.seq() == s@,
    {
        out.push(c);
    }
    out
}

/// The string made of the given characters.
pub fn string_of(w: &Vec<char>) -> (r: String)
    ensures
        r@ == w@,
{
    let mut out = String::new();
    let mut i: usize = 0;
    while i < w.len()
        invariant
            0 <= i <= w.len(),
            out@ == w@.take(i as int),
        decreases w.len() - i,
    {
        string_push(&mut out, w[i]);
        i += 1;
    }
    assert(w@.take(w@.len() as int) == w@);
    out
}

} // verus!
