use searcher::chars::chars_of;
use searcher::fuzzy::create_dfa;
use searcher::str_intern::StrIntern;
use searcher::word_index::WordIndex;
use searcher::{DocId, MatchDistance, MatchEntry};

fn matches(out: &[MatchEntry]) -> Vec<(MatchDistance, String)> {
    out.iter().map(|e| (e.distance, e.word_string())).collect()
}

fn expected(list: &[(u8, &str)]) -> Vec<(MatchDistance, String)> {
    list.iter().map(|(d, w)| (MatchDistance(*d), w.to_string())).collect()
}

#[test]
fn insert_remove_doc() {
    let mut word_index = WordIndex::new();

    let a = word_index.insert_word_doc(&chars_of("w"), DocId::from(0));
    let b = word_index.insert_word_doc(&chars_of("w"), DocId::from(1));

    assert!(a && !b);
    assert_eq!(1, word_index.len());
    assert_eq!(2, word_index.docs_at(0).len());

    let can_delete = word_index.remove_word_doc(&chars_of("w"), DocId::from(0));

    assert!(!can_delete);
    assert_eq!(1, word_index.docs_at(0).len());

    let can_delete = word_index.remove_word_doc(&chars_of("w"), DocId::from(1));
    assert!(can_delete);

    assert_eq!(0, word_index.len());
}

#[test]
fn query() {
    let mut word_index = WordIndex::new();

    word_index.insert_word_doc(&chars_of("balance"), DocId::from(0));
    word_index.insert_word_doc(&chars_of("balle"), DocId::from(1));

    let mut out = Vec::new();

    out.clear();
    word_index.contains(&chars_of("ll"), &mut out);
    assert_eq!(matches(&out), expected(&[(3, "balle")]));

    out.clear();
    word_index.ends_with(&chars_of("le"), &mut out);
    assert_eq!(matches(&out), expected(&[(3, "balle")]));

    out.clear();
    word_index.eq(&chars_of("balle"), &mut out);
    assert_eq!(matches(&out), expected(&[(0, "balle")]));

    out.clear();
    word_index.fuzzy(&create_dfa(&chars_of("bal")).unwrap(), 3, &mut out);
    assert_eq!(matches(&out), expected(&[(4, "balance"), (2, "balle")]));

    out.clear();
    word_index.starts_with(&chars_of("bala"), &mut out);
    assert_eq!(matches(&out), expected(&[(3, "balance")]));
}

#[test]
fn eq_matches_exactly_the_words_of_the_table() {
    let mut word_index = WordIndex::new();
    for (doc, word) in ["delta", "alpha", "charlie", "bravo"].iter().enumerate() {
        word_index.insert_word_doc(&chars_of(word), DocId::from(doc as u32));
    }
    for word in ["alpha", "bravo", "charlie", "delta"] {
        assert!(word_index.contains_word(&chars_of(word)));
        let mut out = Vec::new();
        word_index.eq(&chars_of(word), &mut out);
        assert_eq!(matches(&out), expected(&[(0, word)]));
    }
    for word in ["", "alph", "alphaa", "echo", "b"] {
        assert!(!word_index.contains_word(&chars_of(word)));
        let mut out = Vec::new();
        word_index.eq(&chars_of(word), &mut out);
        assert!(out.is_empty());
    }
}

#[test]
fn starts_with_finds_the_run_of_rows_with_the_prefix() {
    let mut word_index = WordIndex::new();
    for (doc, word) in ["cow", "count", "country", "cot", "countries", "court", "c"].iter().enumerate() {
        word_index.insert_word_doc(&chars_of(word), DocId::from(doc as u32));
    }
    let mut out = Vec::new();
    word_index.starts_with(&chars_of("coun"), &mut out);
    assert_eq!(matches(&out), expected(&[(1, "count"), (5, "countries"), (3, "country")]));

    out.clear();
    word_index.starts_with(&chars_of(""), &mut out);
    assert_eq!(out.len(), 7);
    assert_eq!(out[0].word_string(), "c");

    out.clear();
    word_index.starts_with(&chars_of("cox"), &mut out);
    assert!(out.is_empty());

    out.clear();
    word_index.starts_with(&chars_of("zebra"), &mut out);
    assert!(out.is_empty());
}

#[test]
fn rows_ascend_and_empty_rows_go() {
    let mut word_index = WordIndex::new();
    for word in ["pear", "apple", "fig", "apple", "kiwi"] {
        word_index.insert_word_doc(&chars_of(word), DocId::from(7));
    }
    let words: Vec<String> =
        (0..word_index.len()).map(|i| word_index.word_at(i).iter().collect()).collect();
    assert_eq!(words, vec!["apple", "fig", "kiwi", "pear"]);
    assert!(word_index.remove_word_doc(&chars_of("fig"), DocId::from(7)));
    assert!(!word_index.remove_word_doc(&chars_of("fig"), DocId::from(7)));
    assert!(!word_index.contains_word(&chars_of("fig")));
    assert_eq!(3, word_index.len());
    assert!(!word_index.remove_word_doc(&chars_of("kiwi"), DocId::from(8)));
    assert!(word_index.contains_word(&chars_of("kiwi")));
    assert!(!word_index.remove_word_doc(&chars_of("plum"), DocId::from(7)));
    assert_eq!(3, word_index.len());
}

#[test]
fn fuzzy_distance_adds_the_difference_of_lengths() {
    let mut word_index = WordIndex::new();
    word_index.insert_word_doc(&chars_of("country"), DocId::from(0));
    let mut out = Vec::new();
    word_index.fuzzy(&create_dfa(&chars_of("countries")).unwrap(), 9, &mut out);
    assert_eq!(matches(&out), expected(&[(5, "country")]));
    out.clear();
    word_index.fuzzy(&create_dfa(&chars_of("xyzzy")).unwrap(), 5, &mut out);
    assert!(out.is_empty());
}

#[test]
fn short_words_have_no_automaton() {
    assert!(create_dfa(&chars_of("")).is_none());
    assert!(create_dfa(&chars_of("ab")).is_none());
    assert!(create_dfa(&chars_of("abc")).is_some());
    assert!(create_dfa(&chars_of("abcdefghi")).is_some());
}

#[test]
fn the_interner_keeps_one_copy_in_order() {
    let mut intern = StrIntern::new();
    assert!(intern.insert(&chars_of("b")));
    assert!(intern.insert(&chars_of("a")));
    assert!(!intern.insert(&chars_of("b")));
    assert_eq!(intern.len(), 2);
    assert_eq!(intern.to_strings(), vec!["a".to_string(), "b".to_string()]);
    assert!(intern.contains(&chars_of("a")));
    intern.remove(&chars_of("a"));
    intern.remove(&chars_of("zz"));
    assert!(!intern.contains(&chars_of("a")));
    assert_eq!(intern.to_strings(), vec!["b".to_string()]);
    intern.clear();
    assert_eq!(intern.len(), 0);
}
