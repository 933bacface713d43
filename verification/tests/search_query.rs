use searcher::{MinMatchLevel, Presence, SearchQuery, WordQueryOp};

fn words(query: &SearchQuery) -> Vec<(String, WordQueryOp)> {
    query.words().iter().map(|w| (w.word_string(), w.op())).collect()
}

fn expect(text: &str, expected: Vec<(&str, WordQueryOp)>) {
    let expected: Vec<(String, WordQueryOp)> =
        expected.into_iter().map(|(w, op)| (w.to_string(), op)).collect();
    assert_eq!(words(&SearchQuery::new(0, text)), expected);
}

#[test]
fn search_query_single_word() {
    expect("start*", vec![("start", WordQueryOp::StartsWith)]);
    expect("*end", vec![("end", WordQueryOp::EndsWith)]);
    expect("*contains*", vec![("contains", WordQueryOp::Contains)]);
    expect("fuzzy", vec![("fuzzy", WordQueryOp::Fuzzy)]);
}

#[test]
fn multiple_words() {
    expect(
        "starT* *eNd *Contains* Fuzzy",
        vec![
            ("start", WordQueryOp::StartsWith),
            ("end", WordQueryOp::EndsWith),
            ("contains", WordQueryOp::Contains),
            ("fuzzy", WordQueryOp::Fuzzy),
        ],
    );
}

#[test]
fn words_carry_their_positions() {
    let query = SearchQuery::new(3, "one +two -three");
    assert_eq!(query.culture(), 3);
    assert!(!query.is_empty());
    let positions: Vec<usize> = query.words().iter().map(|w| w.index()).collect();
    assert_eq!(positions, vec![0, 1, 2]);
}

#[test]
fn presence_sigils() {
    let query = SearchQuery::new(0, "plain +wanted -unwanted");
    let presences: Vec<Presence> = query.words().iter().map(|w| w.presence()).collect();
    assert_eq!(presences, vec![Presence::Optional, Presence::Required, Presence::Denied]);
}

#[test]
fn a_space_resets_the_sigils() {
    let query = SearchQuery::new(0, "+ word");
    assert_eq!(query.words().len(), 1);
    assert_eq!(query.words()[0].presence(), Presence::Optional);
    assert_eq!(query.words()[0].op(), WordQueryOp::Fuzzy);
}

#[test]
fn quoted_words_are_matched_as_they_are() {
    expect("'Air  Canada'", vec![("air canada", WordQueryOp::Eq)]);
    expect("\"x-ray\" b", vec![("x ray", WordQueryOp::Eq), ("b", WordQueryOp::Fuzzy)]);
}

#[test]
fn an_empty_text_has_no_word() {
    assert!(SearchQuery::new(0, "").is_empty());
    assert!(SearchQuery::new(0, "  + - * ").is_empty());
    assert!(SearchQuery::new(0, "''").is_empty());
}

#[test]
fn a_star_inside_a_word_is_no_operator() {
    expect("a*b", vec![("a", WordQueryOp::Fuzzy), ("b", WordQueryOp::Fuzzy)]);
}

#[test]
fn min_match_level_rewrites_operators() {
    let mut query = SearchQuery::new(0, "starts* fuzzy *ends");
    query.set_min_match_level(MinMatchLevel::Fuzzy);
    assert_eq!(
        words(&query),
        vec![
            ("starts".to_string(), WordQueryOp::StartsWith),
            ("fuzzy".to_string(), WordQueryOp::Fuzzy),
            ("ends".to_string(), WordQueryOp::EndsWith)
        ]
    );
    query.set_min_match_level(MinMatchLevel::Contains);
    assert_eq!(
        words(&query),
        vec![
            ("starts".to_string(), WordQueryOp::StartsWith),
            ("fuzzy".to_string(), WordQueryOp::Contains),
            ("ends".to_string(), WordQueryOp::EndsWith)
        ]
    );
    query.set_min_match_level(MinMatchLevel::Equal);
    assert_eq!(
        words(&query),
        vec![
            ("starts".to_string(), WordQueryOp::Eq),
            ("fuzzy".to_string(), WordQueryOp::Eq),
            ("ends".to_string(), WordQueryOp::Eq)
        ]
    );
}
