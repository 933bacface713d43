//! A query: its culture and its words, read from a line of text.
//!
//! Before a word, `+` asks that documents match it, `-` that they do not, and `*` that the
//! word be taken as a suffix. A word in single or double quotes is matched as it is, with
//! each run of other characters inside it read as one space. `*` behind a word asks that
//! it be taken as a prefix, or as an infix where `*` stands before it too. Letters are
//! read in lower case. A word without any of these is matched fuzzily.

use crate::chars::{
    char_is_alphanumeric, char_is_whitespace, char_lowercase, chars_of, is_alphanumeric,
    is_whitespace, lowercase,
};
use crate::min_match_level::MinMatchLevel;
use crate::presence::Presence;
use crate::word_query::{WordQuery, WordQueryModel};
use crate::word_query_op::WordQueryOp;
use vstd::prelude::*;

verus! {

broadcast use vstd::seq_lib::group_seq_properties;

/// Whether the character `c` ends the text of a word: the closing quote of a quoted
/// word, or the first character that is no letter and no digit behind a plain one.
pub open spec fn ends_text(c: char, quote: Option<char>) -> bool {
    match quote {
        Some(q) => c == q,
        None => !is_alphanumeric(c),
    }
}

/// The text of a word read from position `pos` of `s` on, with `text` read so far, and
/// the position of the character that ends it.
pub open spec fn take_until(s: Seq<char>, pos: int, text: Seq<char>, quote: Option<char>) -> (
    Seq<char>,
    int,
)
    decreases s.len() - pos,
{
    if pos < 0 || pos >= s.len() {
        (text, pos)
    } else {
        let c = s[pos];
        if ends_text(c, quote) {
            (text, pos)
        } else if is_alphanumeric(c) {
            take_until(s, pos + 1, text + lowercase(c), quote)
        } else if text.len() > 0 && !is_whitespace(text.last()) {
            take_until(s, pos + 1, text.push(' '), quote)
        } else {
            take_until(s, pos + 1, text, quote)
        }
    }
}

/// A word as far as its text is read: the text, the position behind it, and what the
/// characters before it ask.
pub ghost struct Head {
    pub text: Seq<char>,
    pub next: int,
    pub op: WordQueryOp,
    pub presence: Presence,
}

/// The next word of `s` from position `pos` on, with what was asked so far; `None` where
/// `s` ends before a word begins.
pub open spec fn scan_head(s: Seq<char>, pos: int, presence: Presence, op: WordQueryOp) -> Option<Head>
    decreases s.len() - pos,
{
    if pos < 0 || pos >= s.len() {
        None
    } else {
        let c = s[pos];
        if c == '+' {
            scan_head(s, pos + 1, Presence::Required, op)
        } else if c == '-' {
            scan_head(s, pos + 1, Presence::Denied, op)
        } else if c == '*' {
            scan_head(s, pos + 1, presence, WordQueryOp::EndsWith)
        } else if c == '\'' || c == '"' {
            let read = take_until(s, pos + 1, Seq::empty(), Some(c));
            let next = if read.1 < s.len() {
                read.1 + 1
            } else {
                read.1
            };
            Some(Head { text: read.0, next, op: WordQueryOp::Eq, presence })
        } else if is_alphanumeric(c) {
            let read = take_until(s, pos + 1, lowercase(c), None);
            Some(Head { text: read.0, next: read.1, op, presence })
        } else if is_whitespace(c) {
            scan_head(s, pos + 1, Presence::Optional, WordQueryOp::Fuzzy)
        } else {
            scan_head(s, pos + 1, presence, op)
        }
    }
}

/// The operator after a `*` behind the word that is followed by a space or by the end of
/// the text.
pub open spec fn starred(op: WordQueryOp) -> WordQueryOp {
    match op {
        WordQueryOp::Fuzzy => WordQueryOp::StartsWith,
        WordQueryOp::EndsWith => WordQueryOp::Contains,
        _ => op,
    }
}

/// What follows the text of a word: the position of the next letter, digit or space, and
/// the operator after the `*`s on the way.
pub open spec fn scan_tail(s: Seq<char>, pos: int, op: WordQueryOp) -> (int, WordQueryOp)
    decreases s.len() - pos,
{
    if pos < 0 || pos >= s.len() {
        (pos, op)
    } else {
        let c = s[pos];
        if c == '*' {
            if pos + 1 >= s.len() || is_whitespace(s[pos + 1]) {
                scan_tail(s, pos + 1, starred(op))
            } else {
                scan_tail(s, pos + 1, op)
            }
        } else if is_alphanumeric(c) || is_whitespace(c) {
            (pos, op)
        } else {
            scan_tail(s, pos + 1, op)
        }
    }
}

/// The words of `s` from position `pos` on, the first of them at position `count` of the
/// query. A word without text is left out.
pub open spec fn parse_from(s: Seq<char>, pos: int, count: usize) -> Seq<WordQueryModel>
    decreases s.len() - pos,
{
    match scan_head(s, pos, Presence::Optional, WordQueryOp::Fuzzy) {
        None => Seq::empty(),
        Some(head) => {
            let tail = scan_tail(s, head.next, head.op);
            if pos < 0 || tail.0 <= pos || tail.0 > s.len() {
                Seq::empty()
            } else if head.text.len() == 0 {
                parse_from(s, tail.0, count)
            } else {
                parse_from(s, tail.0, (count + 1) as usize).insert(
                    0,
                    WordQueryModel { index: count, op: tail.1, presence: head.presence, word: head.text },
                )
            }
        },
    }
}

/// The words of the query text `s`.
pub open spec fn parse(s: Seq<char>) -> Seq<WordQueryModel> {
    parse_from(s, 0, 0)
}

/// Reading a text never moves backwards.
pub proof fn lemma_take_until_advances(s: Seq<char>, pos: int, text: Seq<char>, quote: Option<char>)
    requires
        0 <= pos <= s.len(),
    ensures
        pos <= take_until(s, pos, text, quote).1 <= s.len(),
    decreases s.len() - pos,
{
    if pos < s.len() {
        let c = s[pos];
        if ends_text(c, quote) {
        } else if is_alphanumeric(c) {
            lemma_take_until_advances(s, pos + 1, text + lowercase(c), quote);
        } else if text.len() > 0 && !is_whitespace(text.last()) {
            lemma_take_until_advances(s, pos + 1, text.push(' '), quote);
        } else {
            lemma_take_until_advances(s, pos + 1, text, quote);
        }
    }
}

/// A word begins behind the position where the scan for it began.
pub proof fn lemma_scan_head_advances(s: Seq<char>, pos: int, presence: Presence, op: WordQueryOp)
    requires
        0 <= pos <= s.len(),
    ensures
        scan_head(s, pos, presence, op) matches Some(head) ==> pos < head.next <= s.len(),
    decreases s.len() - pos,
{
    if pos < s.len() {
        let c = s[pos];
        if c == '+' {
            lemma_scan_head_advances(s, pos + 1, Presence::Required, op);
        } else if c == '-' {
            lemma_scan_head_advances(s, pos + 1, Presence::Denied, op);
        } else if c == '*' {
            lemma_scan_head_advances(s, pos + 1, presence, WordQueryOp::EndsWith);
        } else if c == '\'' || c == '"' {
            lemma_take_until_advances(s, pos + 1, Seq::empty(), Some(c));
        } else if is_alphanumeric(c) {
            lemma_take_until_advances(s, pos + 1, lowercase(c), None);
        } else if is_whitespace(c) {
            lemma_scan_head_advances(s, pos + 1, Presence::Optional, WordQueryOp::Fuzzy);
        } else {
            lemma_scan_head_advances(s, pos + 1, presence, op);
        }
    }
}

/// What follows a word never lies before it.
pub proof fn lemma_scan_tail_advances(s: Seq<char>, pos: int, op: WordQueryOp)
    requires
        0 <= pos <= s.len(),
    ensures
        pos <= scan_tail(s, pos, op).0 <= s.len(),
    decreases s.len() - pos,
{
    if pos < s.len() {
        let c = s[pos];
        if c == '*' {
            if pos + 1 >= s.len() || is_whitespace(s[pos + 1]) {
                lemma_scan_tail_advances(s, pos + 1, starred(op));
            } else {
                lemma_scan_tail_advances(s, pos + 1, op);
            }
        } else if is_alphanumeric(c) || is_whitespace(c) {
        } else {
            lemma_scan_tail_advances(s, pos + 1, op);
        }
    }
}

/// Every word of a query carries its own position, counted from `count`.
pub proof fn lemma_parse_positions(s: Seq<char>, pos: int, count: usize)
    requires
        0 <= pos <= s.len(),
        count + s.len() - pos <= usize::MAX,
    ensures
        parse_from(s, pos, count).len() <= s.len() - pos,
        forall|i: int|
            0 <= i < parse_from(s, pos, count).len() ==> {
                &&& (#[trigger] parse_from(s, pos, count)[i]).index == count + i
                &&& parse_from(s, pos, count)[i].word.len() > 0
            },
    decreases s.len() - pos,
{
    match scan_head(s, pos, Presence::Optional, WordQueryOp::Fuzzy) {
        None => {},
        Some(head) => {
            lemma_scan_head_advances(s, pos, Presence::Optional, WordQueryOp::Fuzzy);
            lemma_scan_tail_advances(s, head.next, head.op);
            let tail = scan_tail(s, head.next, head.op);
            if head.text.len() == 0 {
                lemma_parse_positions(s, tail.0, count);
            } else {
                lemma_parse_positions(s, tail.0, (count + 1) as usize);
            }
        },
    }
}

/// The words from a position on are the next word, unless it is without text, and the
/// words behind it: reading a word always moves on.
pub proof fn lemma_parse_from(s: Seq<char>, pos: int, count: usize)
    requires
        0 <= pos <= s.len(),
    ensures
        parse_from(s, pos, count) == match scan_head(s, pos, Presence::Optional, WordQueryOp::Fuzzy) {
            None => Seq::<WordQueryModel>::empty(),
            Some(head) => {
                let tail = scan_tail(s, head.next, head.op);
                if head.text.len() == 0 {
                    parse_from(s, tail.0, count)
                } else {
                    parse_from(s, tail.0, (count + 1) as usize).insert(
                        0,
                        WordQueryModel { index: count, op: tail.1, presence: head.presence, word: head.text },
                    )
                }
            },
        },
{
    lemma_scan_head_advances(s, pos, Presence::Optional, WordQueryOp::Fuzzy);
    match scan_head(s, pos, Presence::Optional, WordQueryOp::Fuzzy) {
        None => {},
        Some(head) => {
            lemma_scan_tail_advances(s, head.next, head.op);
        },
    }
}

/// Reads the text of a word into `text`, from `*pos` on up to the character that ends it.
fn read_text(chars: &Vec<char>, pos: &mut usize, text: &mut Vec<char>, quote: Option<char>)
    requires
        *old(pos) <= chars.len(),
    ensures
        (final(text)@, *final(pos) as int) == take_until(chars@, *old(pos) as int, old(text)@, quote),
        *old(pos) <= *final(pos) <= chars.len(),
{
    let ghost start = *pos as int;
    proof {
        lemma_take_until_advances(chars@, start, text@, quote);
    }
    while *pos < chars.len()
        invariant
            start == *old(pos),
            start <= *pos <= chars.len(),
            take_until(chars@, *pos as int, text@, quote) == take_until(chars@, start, old(text)@, quote),
        decreases chars.len() - *pos,
    {
        let c = chars[*pos];
        let stop = match quote {
            Some(q) => c == q,
            None => !char_is_alphanumeric(c),
        };
        if stop {
            return ;
        }
        if char_is_alphanumeric(c) {
            let mut folded = char_lowercase(c);
            let ghost before = text@;
            text.append(&mut folded);
            assert(text@ == before + lowercase(c));
        } else if text.len() > 0 && !char_is_whitespace(text[text.len() - 1]) {
            text.push(' ');
        }
        *pos += 1;
    }
}

/// Reads what follows the text of a word, from `*pos` on, and returns the operator after
/// the `*`s on the way.
fn read_tail(chars: &Vec<char>, pos: &mut usize, first: WordQueryOp) -> (r: WordQueryOp)
    requires
        *old(pos) <= chars.len(),
    ensures
        (*final(pos) as int, r) == scan_tail(chars@, *old(pos) as int, first),
        *old(pos) <= *final(pos) <= chars.len(),
{
    let ghost start = *pos as int;
    let mut op = first;
    proof {
        lemma_scan_tail_advances(chars@, start, op);
    }
    while *pos < chars.len()
        invariant
            start == *old(pos),
            start <= *pos <= chars.len(),
            scan_tail(chars@, *pos as int, op) == scan_tail(chars@, start, first),
        decreases chars.len() - *pos,
    {
        let c = chars[*pos];
        if c == '*' {
            let at_end = if *pos + 1 >= chars.len() {
                true
            } else {
                char_is_whitespace(chars[*pos + 1])
            };
            if at_end {
                match op {
                    WordQueryOp::Fuzzy => op = WordQueryOp::StartsWith,
                    WordQueryOp::Contains | WordQueryOp::Eq | WordQueryOp::StartsWith => {},
                    WordQueryOp::EndsWith => op = WordQueryOp::Contains,
                }
            }
        } else if char_is_alphanumeric(c) || char_is_whitespace(c) {
            assert(scan_tail(chars@, *pos as int, op) == (*pos as int, op));
            return op;
        }
        *pos += 1;
    }
    op
}

/// Reads the next word of the query from `*pos` on: `None` where the text ends before a
/// word begins.
fn parse_token(chars: &Vec<char>, pos: &mut usize, index: usize) -> (r: Option<WordQuery>)
    requires
        *old(pos) <= chars.len(),
    ensures
        *old(pos) <= *final(pos) <= chars.len(),
        match scan_head(chars@, *old(pos) as int, Presence::Optional, WordQueryOp::Fuzzy) {
            None => r is None,
            Some(head) => {
                let tail = scan_tail(chars@, head.next, head.op);
                &&& r is Some
                &&& r->0@ == (WordQueryModel { index, op: tail.1, presence: head.presence, word: head.text })
                &&& *final(pos) == tail.0
                &&& *old(pos) < *final(pos) <= chars.len()
            },
        },
{
    let ghost start = *pos as int;
    let mut presence = Presence::Optional;
    let mut op = WordQueryOp::Fuzzy;
    let mut text: Vec<char> = Vec::new();
    proof {
        lemma_scan_head_advances(chars@, start, presence, op);
    }
    loop
        invariant_except_break
            start <= *pos <= chars.len(),
            text@.len() == 0,
            scan_head(chars@, *pos as int, presence, op) == scan_head(
                chars@,
                start,
                Presence::Optional,
                WordQueryOp::Fuzzy,
            ),
        invariant
            start == *old(pos),
        ensures
            scan_head(chars@, start, Presence::Optional, WordQueryOp::Fuzzy) == Some(
                Head { text: text@, next: *pos as int, op, presence },
            ),
            start < *pos <= chars.len(),
        decreases chars.len() - *pos,
    {
        if *pos >= chars.len() {
            return None;
        }
        let c = chars[*pos];
        *pos += 1;
        if c == '+' {
            presence = Presence::Required;
        } else if c == '-' {
            presence = Presence::Denied;
        } else if c == '*' {
            op = WordQueryOp::EndsWith;
        } else if c == '\'' || c == '"' {
            read_text(chars, pos, &mut text, Some(c));
            if *pos < chars.len() {
                *pos += 1;
            }
            op = WordQueryOp::Eq;
            break ;
        } else if char_is_alphanumeric(c) {
            let mut folded = char_lowercase(c);
            text.append(&mut folded);
            assert(text@ =~= lowercase(c));
            read_text(chars, pos, &mut text, None);
            break ;
        } else if char_is_whitespace(c) {
            presence = Presence::Optional;
            op = WordQueryOp::Fuzzy;
        }
    }
    let op = read_tail(chars, pos, op);
    Some(WordQuery::from_chars(text, op, presence, index))
}

/// A query.
pub struct SearchQuery {
    culture: u8,
    words: Vec<WordQuery>,
}

impl SearchQuery {
    /// The culture whose word tables answer the query.
    pub closed spec fn spec_culture(&self) -> u8 {
        self.culture
    }

    /// The words of the query, in order.
    pub closed spec fn spec_words(&self) -> Seq<WordQueryModel> {
        self.words@.map_values(|w: WordQuery| w@)
    }

    /// Every word carries its position in the query.
    pub open spec fn wf(&self) -> bool {
        forall|i: int| 0 <= i < self.spec_words().len() ==> (#[trigger] self.spec_words()[i]).index == i
    }

    /// Reads the query `s` for the culture `culture`. The words keep the order of the
    /// text, and each carries its position among them.
    pub fn new(culture: u8, s: &str) -> (r: Self)
        ensures
            r.wf(),
            r.spec_culture() == culture,
            r.spec_words() == parse(s@),
            forall|i: int| 0 <= i < r.spec_words().len() ==> (#[trigger] r.spec_words()[i]).word.len() > 0,
    {
        let chars = chars_of(s);
        let mut words: Vec<WordQuery> = Vec::new();
        let mut pos: usize = 0;
        let ghost text = chars@;
        proof {
            lemma_parse_positions(text, 0, 0);
            assert(words@.map_values(|w: WordQuery| w@) =~= Seq::<WordQueryModel>::empty());
        }
        loop
            invariant_except_break
                parse(text) == words@.map_values(|w: WordQuery| w@) + parse_from(
                    text,
                    pos as int,
                    words.len(),
                ),
            invariant
                0 <= pos <= chars.len(),
                text == chars@,
                text == s@,
                words.len() <= pos,
            ensures
                words@.map_values(|w: WordQuery| w@) == parse(text),
            decreases chars.len() - pos,
        {
            let ghost from = pos as int;
            let ghost before = words@.map_values(|w: WordQuery| w@);
            proof {
                lemma_scan_head_advances(text, from, Presence::Optional, WordQueryOp::Fuzzy);
            }
            match parse_token(&chars, &mut pos, words.len()) {
                None => {
                    assert(parse_from(text, from, words.len()) == Seq::<WordQueryModel>::empty());
                    assert(before + Seq::<WordQueryModel>::empty() =~= before);
                    break ;
                },
                Some(token) => {
                    if token.word().len() > 0 {
                        let ghost w = token@;
                        words.push(token);
                        proof {
                            assert(words@.map_values(|w: WordQuery| w@) =~= before.push(w));
                            assert(before + parse_from(text, pos as int, words.len()).insert(0, w)
                                =~= before.push(w) + parse_from(text, pos as int, words.len()));
                        }
                    }
                },
            }
        }
        let r = SearchQuery { culture, words };
        proof {
            lemma_parse_positions(text, 0, 0);
        }
        r
    }

    /// The culture whose word tables answer the query.
    pub fn culture(&self) -> (r: u8)
        ensures
            r == self.spec_culture(),
    {
        self.culture
    }

    /// The words of the query, in order.
    pub fn words(&self) -> (r: &Vec<WordQuery>)
        ensures
            r@.map_values(|w: WordQuery| w@) == self.spec_words(),
    {
        &self.words
    }

    /// Whether the query has no word.
    pub fn is_empty(&self) -> (r: bool)
        ensures
            r == (self.spec_words().len() == 0),
    {
        self.words.len() == 0
    }

    /// Makes every word match at least as strictly as `level` asks: with `Contains` a
    /// fuzzy word becomes an infix word, with `Equal` every word must be matched as it
    /// is, and with `Fuzzy` nothing changes.
    pub fn set_min_match_level(&mut self, level: MinMatchLevel)
        ensures
            final(self).spec_culture() == old(self).spec_culture(),
            final(self).spec_words() == old(self).spec_words().map_values(
                |w: WordQueryModel| WordQueryModel { op: leveled(w.op, level), ..w },
            ),
            old(self).wf() ==> final(self).wf(),
    {
        let n = self.words.len();
        let mut i: usize = 0;
        while i < n
            invariant
                0 <= i <= n,
                n == old(self).words@.len(),
                self.words@.len() == n,
                self.culture == old(self).culture,
                forall|j: int|
                    0 <= j < i ==> (#[trigger] self.words@[j])@ == (WordQueryModel {
                        op: leveled(old(self).words@[j]@.op, level),
                        ..old(self).words@[j]@
                    }),
                forall|j: int| i <= j < n ==> #[trigger] self.words@[j] == old(self).words@[j],
            decreases n - i,
        {
            let op = self.words[i].op();
            let next = match level {
                MinMatchLevel::Contains => match op {
                    WordQueryOp::Fuzzy => WordQueryOp::Contains,
                    _ => op,
                },
                MinMatchLevel::Equal => WordQueryOp::Eq,
                MinMatchLevel::Fuzzy => op,
            };
            self.words[i].set_op(next);
            i += 1;
        }
        assert(self.spec_words() =~= old(self).spec_words().map_values(
            |w: WordQueryModel| WordQueryModel { op: leveled(w.op, level), ..w },
        ));
    }
}

/// The operator that a word keeps or gets under the level `level`.
pub open spec fn leveled(op: WordQueryOp, level: MinMatchLevel) -> WordQueryOp {
    match level {
        MinMatchLevel::Contains => if op == WordQueryOp::Fuzzy {
            WordQueryOp::Contains
        } else {
            op
        },
        MinMatchLevel::Equal => WordQueryOp::Eq,
        MinMatchLevel::Fuzzy => op,
    }
}

} // verus!
