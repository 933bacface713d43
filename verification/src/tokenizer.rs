//! The tokenizer that turns an attribute's value into the words to index.
//!
//! One pass over the characters. A run of letters is one word, each letter in lower
//! case; a run of digits is one word; `#` and `°` are words of their own where whitespace
//! stands before them, or the value starts with them, and separate like any other
//! character elsewhere. The scan ends at the first position where no word can be found any
//! more.

use crate::chars::{
    char_is_alphabetic, char_is_numeric, char_is_whitespace, char_lowercase, is_alphabetic,
    is_numeric, is_whitespace, lowercase,
};
use crate::word::words_view;
use vstd::prelude::*;

verus! {

/// What the scanner has seen of the word under way.
#[derive(Clone, Copy, Debug, PartialEq, Eq, Structural)]
pub enum CharKind {
    /// Nothing yet.
    Whitespace,
    /// Letters.
    Alpha,
    /// Digits.
    Number,
}

/// Whether `c` is one of the two characters that can be words of their own.
pub open spec fn is_sentinel(c: char) -> bool {
    c == '#' || c == '\u{b0}'
}

/// Whether whitespace stands before position `pos` of `s`. The start of `s` counts as
/// whitespace.
pub open spec fn after_whitespace(s: Seq<char>, pos: int) -> bool {
    pos <= 0 || is_whitespace(s[pos - 1])
}

/// The scan of one word: from position `pos` of `s`, with `word` gathered so far from
/// characters of kind `kind`, the finished word and the position behind it.
pub open spec fn scan_word(s: Seq<char>, pos: int, kind: CharKind, word: Seq<char>) -> (
    Seq<char>,
    int,
)
    decreases s.len() - pos,
{
    if pos < 0 || pos >= s.len() {
        (word, pos)
    } else {
        let c = s[pos];
        if is_alphabetic(c) {
            if kind == CharKind::Number {
                (word, pos)
            } else {
                scan_word(s, pos + 1, CharKind::Alpha, word + lowercase(c))
            }
        } else if is_numeric(c) {
            if kind == CharKind::Alpha {
                (word, pos)
            } else {
                scan_word(s, pos + 1, CharKind::Number, word.push(c))
            }
        } else if is_sentinel(c) && word.len() == 0 && after_whitespace(s, pos) {
            (word.push(c), pos + 1)
        } else if word.len() > 0 {
            (word, pos + 1)
        } else {
            scan_word(s, pos + 1, kind, word)
        }
    }
}

/// The word that starts at or after position `pos` of `s`, and the position behind it.
/// The word is empty where there is none.
pub open spec fn next_word(s: Seq<char>, pos: int) -> (Seq<char>, int) {
    scan_word(s, pos, CharKind::Whitespace, Seq::empty())
}

/// The words of `s` from position `pos` on.
pub open spec fn tokens_from(s: Seq<char>, pos: int) -> Seq<Seq<char>>
    decreases s.len() - pos,
{
    if pos < 0 || pos >= s.len() {
        Seq::empty()
    } else if next_word(s, pos).0.len() == 0 || next_word(s, pos).1 <= pos || next_word(s, pos).1
        > s.len() {
        Seq::empty()
    } else {
        tokens_from(s, next_word(s, pos).1).insert(0, next_word(s, pos).0)
    }
}

/// The words of `s`.
pub open spec fn tokens(s: Seq<char>) -> Seq<Seq<char>> {
    tokens_from(s, 0)
}

/// A scan never moves backwards and never loses what it has gathered; where it gathers
/// anything, it moves on.
pub proof fn lemma_scan_advances(s: Seq<char>, pos: int, kind: CharKind, word: Seq<char>)
    requires
        0 <= pos <= s.len(),
    ensures
        pos <= scan_word(s, pos, kind, word).1 <= s.len(),
        scan_word(s, pos, kind, word).0.len() >= word.len(),
        scan_word(s, pos, kind, word).0.len() > word.len() ==> scan_word(s, pos, kind, word).1 > pos,
    decreases s.len() - pos,
{
    if pos < s.len() {
        let c = s[pos];
        if is_alphabetic(c) {
            if kind != CharKind::Number {
                lemma_scan_advances(s, pos + 1, CharKind::Alpha, word + lowercase(c));
            }
        } else if is_numeric(c) {
            if kind != CharKind::Alpha {
                lemma_scan_advances(s, pos + 1, CharKind::Number, word.push(c));
            }
        } else if is_sentinel(c) && word.len() == 0 && after_whitespace(s, pos) {
        } else if word.len() > 0 {
        } else {
            lemma_scan_advances(s, pos + 1, kind, word);
        }
    }
}

/// The words from a position on are the next word, if there is one, and the words behind
/// it: a scan that finds a word always moves on.
pub proof fn lemma_tokens_from(s: Seq<char>, pos: int)
    requires
        0 <= pos <= s.len(),
    ensures
        tokens_from(s, pos) == if next_word(s, pos).0.len() == 0 {
            Seq::<Seq<char>>::empty()
        } else {
            tokens_from(s, next_word(s, pos).1).insert(0, next_word(s, pos).0)
        },
{
    lemma_scan_advances(s, pos, CharKind::Whitespace, Seq::empty());
}

/// Whether whitespace stands before position `pos` of `chars`, or nothing does.
fn stands_after_whitespace(chars: &Vec<char>, pos: usize) -> (r: bool)
    requires
        pos <= chars.len(),
    ensures
        r == after_whitespace(chars@, pos as int),
{
    pos == 0 || char_is_whitespace(chars[pos - 1])
}

/// Scans one word of `chars` from `*pos` on into `word`, and leaves `*pos` behind it.
/// `word` is left empty where no word is found. `#` and `°` are read as a word only
/// behind whitespace or at the start of `chars`.
pub fn find_next_word(chars: &Vec<char>, pos: &mut usize, word: &mut Vec<char>)
    requires
        *old(pos) <= chars.len(),
    ensures
        (final(word)@, *final(pos) as int) == next_word(chars@, *old(pos) as int),
        *old(pos) <= *final(pos) <= chars.len(),
        final(word)@.len() > 0 ==> *final(pos) > *old(pos),
{
    let ghost start = *pos as int;
    let mut kind = CharKind::Whitespace;
    word.clear();
    proof {
        lemma_scan_advances(chars@, start, CharKind::Whitespace, Seq::empty());
    }
    while *pos < chars.len()
        invariant
            start == *old(pos),
            start <= *pos <= chars.len(),
            scan_word(chars@, *pos as int, kind, word@) == next_word(chars@, start),
            next_word(chars@, start).0.len() > 0 ==> next_word(chars@, start).1 > start,
        decreases chars.len() - *pos,
    {
        let c = chars[*pos];
        if char_is_alphabetic(c) {
            if let CharKind::Number = kind {
                assert(scan_word(chars@, *pos as int, kind, word@) == (word@, *pos as int));
                return ;
            }
            let mut folded = char_lowercase(c);
            let ghost before = word@;
            word.append(&mut folded);
            assert(word@ == before + lowercase(c));
            kind = CharKind::Alpha;
        } else if char_is_numeric(c) {
            if let CharKind::Alpha = kind {
                assert(scan_word(chars@, *pos as int, kind, word@) == (word@, *pos as int));
                return ;
            }
            word.push(c);
            kind = CharKind::Number;
        } else if (c == '#' || c == '\u{b0}') && word.len() == 0 && stands_after_whitespace(chars, *pos) {
            let ghost at = *pos as int;
            let ghost before = word@;
            *pos += 1;
            word.push(c);
            assert(scan_word(chars@, at, kind, before) == (word@, *pos as int));
            return ;
        } else if word.len() > 0 {
            assert(scan_word(chars@, *pos as int, kind, word@) == (word@, *pos + 1));
            *pos += 1;
            return ;
        }
        *pos += 1;
    }
    assert(scan_word(chars@, *pos as int, kind, word@) == (word@, *pos as int));
}

/// The words of `value`, in the order in which they occur.
pub fn tokenize(value: &Vec<char>) -> (r: Vec<Vec<char>>)
    ensures
        words_view(r@) == tokens(value@),
{
    let mut out: Vec<Vec<char>> = Vec::new();
    let mut pos: usize = 0;
    assert(words_view(out@) =~= Seq::<Seq<char>>::empty());
    loop
        invariant_except_break
            tokens(value@) == words_view(out@) + tokens_from(value@, pos as int),
        invariant
            0 <= pos <= value.len(),
        ensures
            words_view(out@) == tokens(value@),
        decreases value.len() - pos,
    {
        let mut word: Vec<char> = Vec::new();
        let ghost from = pos as int;
        find_next_word(value, &mut pos, &mut word);
        if word.len() == 0 {
            assert(tokens_from(value@, from) == Seq::<Seq<char>>::empty());
            assert(words_view(out@) + Seq::<Seq<char>>::empty() =~= words_view(out@));
            break ;
        }
        let ghost prev = out@;
        let ghost w = word@;
        out.push(word);
        proof {
            assert(words_view(out@) =~= words_view(prev).push(w));
            assert(tokens_from(value@, from) == tokens_from(value@, pos as int).insert(0, w));
            assert(words_view(prev) + tokens_from(value@, pos as int).insert(0, w) =~= words_view(
                prev,
            ).push(w) + tokens_from(value@, pos as int));
        }
    }
    out
}

} // verus!
