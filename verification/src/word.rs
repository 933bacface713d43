//! Words as sequences of characters: their order, and the prefix, suffix and infix tests
//! that the word-table scans rest on.

use vstd::prelude::*;

verus! {

/// The outcome of comparing two words in dictionary order.
#[derive(Clone, Copy, Debug, PartialEq, Eq, Structural)]
pub enum Place {
    Before,
    Same,
    After,
}

/// `a` and `b` hold the same characters at every position below `k`.
pub open spec fn agree_below(a: Seq<char>, b: Seq<char>, k: int) -> bool {
    forall|j: int| 0 <= j < k ==> a[j] == b[j]
}

/// `k` is a position at which `a` is decided to come before `b`: the two agree below `k`,
/// and there `a` either ends first or holds the smaller character.
pub open spec fn splits_at(a: Seq<char>, b: Seq<char>, k: int) -> bool {
    &&& 0 <= k <= a.len()
    &&& k <= b.len()
    &&& agree_below(a, b, k)
    &&& if k == a.len() {
        k < b.len()
    } else {
        k < b.len() && a[k] < b[k]
    }
}

/// Strict dictionary order by code point. This is the order of the UTF-8 encodings
/// compared byte by byte.
pub open spec fn word_lt(a: Seq<char>, b: Seq<char>) -> bool {
    exists|k: int| splits_at(a, b, k)
}

/// `p` is what `w` starts with.
pub open spec fn is_prefix(p: Seq<char>, w: Seq<char>) -> bool {
    p.len() <= w.len() && forall|j: int| 0 <= j < p.len() ==> w[j] == p[j]
}

/// `p` occurs in `w` starting at position `at`.
pub open spec fn occurs_at(p: Seq<char>, w: Seq<char>, at: int) -> bool {
    0 <= at && at + p.len() <= w.len() && forall|j: int| 0 <= j < p.len() ==> w[at + j] == p[j]
}

/// `p` is what `w` ends with.
pub open spec fn is_suffix(p: Seq<char>, w: Seq<char>) -> bool {
    p.len() <= w.len() && occurs_at(p, w, w.len() - p.len())
}

/// `p` occurs somewhere in `w`.
pub open spec fn is_infix(p: Seq<char>, w: Seq<char>) -> bool {
    exists|at: int| occurs_at(p, w, at)
}

/// No word comes before itself.
pub proof fn lemma_lt_irreflexive(a: Seq<char>)
    ensures
        !word_lt(a, a),
{
}

/// The order is transitive.
pub proof fn lemma_lt_transitive(a: Seq<char>, b: Seq<char>, c: Seq<char>)
    requires
        word_lt(a, b),
        word_lt(b, c),
    ensures
        word_lt(a, c),
{
    let k1 = choose|k: int| splits_at(a, b, k);
    let k2 = choose|k: int| splits_at(b, c, k);
    let k = if k1 <= k2 { k1 } else { k2 };
    assert(splits_at(a, c, k));
}

/// Two words cannot each come before the other.
pub proof fn lemma_lt_asymmetric(a: Seq<char>, b: Seq<char>)
    requires
        word_lt(a, b),
    ensures
        !word_lt(b, a),
{
    if word_lt(b, a) {
        lemma_lt_transitive(a, b, a);
    }
}

/// Two words that agree below `i` are equal, or one comes before the other.
proof fn lemma_lt_total_from(a: Seq<char>, b: Seq<char>, i: int)
    requires
        0 <= i <= a.len(),
        i <= b.len(),
        agree_below(a, b, i),
    ensures
        a == b || word_lt(a, b) || word_lt(b, a),
    decreases a.len() - i,
{
    if i == a.len() {
        if i == b.len() {
            assert(a =~= b);
        } else {
            assert(splits_at(a, b, i));
        }
    } else if i == b.len() {
        assert(splits_at(b, a, i));
    } else if a[i] < b[i] {
        assert(splits_at(a, b, i));
    } else if b[i] < a[i] {
        assert(splits_at(b, a, i));
    } else {
        lemma_lt_total_from(a, b, i + 1);
    }
}

/// Of two different words one comes before the other.
pub proof fn lemma_lt_total(a: Seq<char>, b: Seq<char>)
    ensures
        a == b || word_lt(a, b) || word_lt(b, a),
{
    lemma_lt_total_from(a, b, 0);
}

/// A word never comes before one of its prefixes.
pub proof fn lemma_prefix_not_after(p: Seq<char>, w: Seq<char>)
    requires
        is_prefix(p, w),
    ensures
        p == w || word_lt(p, w),
        !word_lt(w, p),
{
    if p.len() == w.len() {
        assert(p =~= w);
        lemma_lt_irreflexive(p);
    } else {
        assert(splits_at(p, w, p.len() as int));
        lemma_lt_asymmetric(p, w);
    }
}

/// The words that start with `p` are contiguous in the order: whatever lies between `p`
/// and a word that starts with `p` starts with `p` too.
pub proof fn lemma_prefix_interval(p: Seq<char>, x: Seq<char>, y: Seq<char>)
    requires
        p == x || word_lt(p, x),
        word_lt(x, y),
        is_prefix(p, y),
    ensures
        is_prefix(p, x),
{
    if p != x {
        let k = choose|k: int| splits_at(p, x, k);
        let m = choose|m: int| splits_at(x, y, m);
        if k < p.len() {
            assert(y[k] == p[k]);
            if m < k {
                assert(y[m] == p[m]);
                assert(x[m] == p[m]);
            }
        }
    }
}

/// Compares two words in dictionary order.
pub fn place_of(a: &Vec<char>, b: &Vec<char>) -> (r: Place)
    ensures
        r == Place::Before <==> word_lt(a@, b@),
        r == Place::Same <==> a@ == b@,
        r == Place::After <==> word_lt(b@, a@),
{
    let mut i: usize = 0;
    while i < a.len() && i < b.len()
        invariant
            0 <= i <= a.len(),
            i <= b.len(),
            agree_below(a@, b@, i as int),
        decreases a.len() - i,
    {
        let x = a[i];
        let y = b[i];
        if x < y {
            proof {
                assert(splits_at(a@, b@, i as int));
                lemma_lt_asymmetric(a@, b@);
                lemma_lt_irreflexive(a@);
            }
            return Place::Before;
        }
        if y < x {
            proof {
                assert(splits_at(b@, a@, i as int));
                lemma_lt_asymmetric(b@, a@);
                lemma_lt_irreflexive(a@);
            }
            return Place::After;
        }
        i += 1;
    }
    if i < b.len() {
        proof {
            assert(splits_at(a@, b@, i as int));
            lemma_lt_asymmetric(a@, b@);
            lemma_lt_irreflexive(a@);
        }
        Place::Before
    } else if i < a.len() {
        proof {
            assert(splits_at(b@, a@, i as int));
            lemma_lt_asymmetric(b@, a@);
            lemma_lt_irreflexive(a@);
        }
        Place::After
    } else {
        proof {
            assert(a@ =~= b@);
            lemma_lt_irreflexive(a@);
        }
        Place::Same
    }
}

/// Whether `w` holds `p` at position `at`.
pub fn holds_at(p: &Vec<char>, w: &Vec<char>, at: usize) -> (r: bool)
    requires
        at + p.len() <= w.len(),
    ensures
        r == occurs_at(p@, w@, at as int),
{
    let mut j: usize = 0;
    while j < p.len()
        invariant
            0 <= j <= p.len(),
            at + p.len() <= w.len(),
            forall|i: int| 0 <= i < j ==> w@[at + i] == p@[i],
        decreases p.len() - j,
    {
        if w[at + j] != p[j] {
            return false;
        }
        j += 1;
    }
    true
}

/// Whether `w` starts with `p`.
pub fn starts_with(w: &Vec<char>, p: &Vec<char>) -> (r: bool)
    ensures
        r == is_prefix(p@, w@),
{
    if p.len() > w.len() {
        return false;
    }
    let r = holds_at(p, w, 0);
    assert(occurs_at(p@, w@, 0) == is_prefix(p@, w@));
    r
}

/// Whether `w` ends with `p`.
pub fn ends_with(w: &Vec<char>, p: &Vec<char>) -> (r: bool)
    ensures
        r == is_suffix(p@, w@),
{
    if p.len() > w.len() {
        return false;
    }
    holds_at(p, w, w.len() - p.len())
}

/// Whether `p` occurs somewhere in `w`.
pub fn contains(w: &Vec<char>, p: &Vec<char>) -> (r: bool)
    ensures
        r == is_infix(p@, w@),
{
    if p.len() > w.len() {
        assert(forall|at: int| !occurs_at(p@, w@, at));
        return false;
    }
    let last: usize = w.len() - p.len();
    let mut at: usize = 0;
    while at <= last
        invariant
            0 <= at <= last + 1,
            last == w.len() - p.len(),
            forall|i: int| 0 <= i < at ==> !occurs_at(p@, w@, i),
        decreases last + 1 - at,
    {
        if holds_at(p, w, at) {
            return true;
        }
        at += 1;
    }
    assert(forall|i: int| !occurs_at(p@, w@, i));
    false
}

/// The characters of `w` in the opposite order.
pub fn reversed(w: &Vec<char>) -> (r: Vec<char>)
    ensures
        r@ == w@.reverse(),
{
    let mut out: Vec<char> = Vec::new();
    let n = w.len();
    let mut i: usize = 0;
    while i < n
        invariant
            0 <= i <= n,
            n == w.len(),
            out@.len() == i,
            forall|j: int| 0 <= j < i ==> out@[j] == w@[n - 1 - j],
        decreases n - i,
    {
        out.push(w[n - 1 - i]);
        i += 1;
    }
    assert(out@ =~= w@.reverse());
    out
}

/// A copy of `w`.
pub fn copy_of(w: &Vec<char>) -> (r: Vec<char>)
    ensures
        r@ == w@,
{
    let mut out: Vec<char> = Vec::new();
    let mut i: usize = 0;
    while i < w.len()
        invariant
            0 <= i <= w.len(),
            out@ == w@.take(i as int),
        decreases w.len() - i,
    {
        out.push(w[i]);
        i += 1;
    }
    assert(w@.take(w@.len() as int) == w@);
    out
}

/// The number of characters of `w`, capped at 255.
pub fn capped_len(w: &Vec<char>) -> (r: u8)
    ensures
        r == spec_capped_len(w@),
{
    if w.len() > 255 {
        255
    } else {
        w.len() as u8
    }
}

/// The number of characters of a word, capped at 255.
pub open spec fn spec_capped_len(w: Seq<char>) -> u8 {
    if w.len() > 255 {
        255
    } else {
        w.len() as u8
    }
}

} // verus!

verus! {

/// What a list of words holds, word by word.
pub open spec fn words_view(s: Seq<Vec<char>>) -> Seq<Seq<char>> {
    s.map_values(|w: Vec<char>| w@)
}

/// Whether `w` is one of the words of `ws`.
pub fn has_word(ws: &Vec<Vec<char>>, w: &Vec<char>) -> (r: bool)
    ensures
        r == words_view(ws@).contains(w@),
{
    let mut i: usize = 0;
    while i < ws.len()
        invariant
            0 <= i <= ws.len(),
            forall|j: int| 0 <= j < i ==> words_view(ws@)[j] != w@,
        decreases ws.len() - i,
    {
        if let Place::Same = place_of(&ws[i], w) {
            assert(words_view(ws@)[i as int] == w@);
            return true;
        }
        i += 1;
    }
    false
}

} // verus!
