use searcher::comparers::match_distance_score::MatchDistanceScore;
use searcher::comparers::proximity_seq_score::ProximitySeqScore;
use searcher::comparers::Rank;
use searcher::{AttrProps, Direction, DocId, MatchDistance, SearchQuery, Searcher};

fn one_attribute(docs: &[&str]) -> Searcher {
    let mut out = Searcher::new();
    out.set_attribute("*".into(), AttrProps::default());
    for (doc_id, doc) in docs.iter().enumerate() {
        out.insert_doc_attribute(DocId::from(doc_id as u32), "*", doc);
    }
    out
}

fn distances(searcher: &Searcher, query: &str, doc: u32) -> Vec<(u8, usize)> {
    let results = searcher.query(&SearchQuery::new(0, query));
    let forward = results.direction_index_results(Direction::Forward);
    let words = forward.index.get_doc_attribute_words(DocId::from(doc), 0).unwrap();
    let mut score = MatchDistanceScore::new();
    score.update(&forward.index_to_query, words);
    score.0.iter().map(|r| (r.distance.unwrap().0, r.index)).collect()
}

fn proximity(searcher: &Searcher, query: &str, doc: u32) -> (usize, usize, usize) {
    let results = searcher.query(&SearchQuery::new(0, query));
    let forward = results.direction_index_results(Direction::Forward);
    let words = forward.index.get_doc_attribute_words(DocId::from(doc), 0).unwrap();
    let mut score = ProximitySeqScore::new();
    score.update(&forward.index_to_query, words);
    (score.count, score.proximity, score.seq)
}

#[test]
fn match_distances_are_sorted_closest_first() {
    let searcher = one_attribute(&["red big round apple pie", "country counts count"]);
    assert_eq!(distances(&searcher, "'apple' 'red' 'pie'", 0), vec![(0, 0), (0, 1), (0, 2)]);
    assert_eq!(distances(&searcher, "'apple' 'red' 'pie'", 1), vec![]);
    assert_eq!(distances(&searcher, "coun* 'red' count*", 1), vec![(0, 2)]);
    assert_eq!(distances(&searcher, "countr* 'counts' cou*", 1), vec![(0, 1), (1, 0), (2, 2)]);
}

#[test]
fn proximity_and_sequence_of_the_best_matches() {
    let searcher = one_attribute(&["red big round apple pie", "pie apple red", "apple"]);
    assert_eq!(proximity(&searcher, "'apple' 'red' 'pie'", 0), (3, 4, 1));
    assert_eq!(proximity(&searcher, "'red' 'apple' 'pie'", 0), (3, 4, 2));
    assert_eq!(proximity(&searcher, "'apple' 'red' 'pie'", 1), (3, 2, 1));
    assert_eq!(proximity(&searcher, "'apple' 'red' 'pie'", 2), (1, 0, 0));
    assert_eq!(proximity(&searcher, "'none'", 2), (0, 0, 0));
}

#[test]
fn the_first_of_equally_close_matches_counts() {
    let searcher = one_attribute(&["ab abc x ab"]);
    assert_eq!(proximity(&searcher, "ab* 'x'", 0), (2, 2, 1));
    assert_eq!(proximity(&searcher, "'x' ab*", 0), (2, 2, 0));
}

#[test]
fn scores_rank_as_documented() {
    let searcher = one_attribute(&["red big round apple pie", "red apple", "apple"]);
    let results = searcher.query(&SearchQuery::new(0, "'red' 'apple'"));
    let forward = results.direction_index_results(Direction::Forward);
    let score = |doc: u32| {
        let words = forward.index.get_doc_attribute_words(DocId::from(doc), 0).unwrap();
        let mut md = MatchDistanceScore::new();
        md.update(&forward.index_to_query, words);
        let mut ps = ProximitySeqScore::new();
        ps.update(&forward.index_to_query, words);
        (md, ps)
    };
    let (md0, ps0) = score(0);
    let (md1, ps1) = score(1);
    let (md2, ps2) = score(2);
    assert_eq!(md0.rank(&md1), Rank::Equal);
    assert_eq!(md0.rank(&md2), Rank::Less);
    assert_eq!(md2.rank(&md0), Rank::Greater);
    assert_eq!(MatchDistanceScore::new().rank(&md2), Rank::Greater);
    assert_eq!(ps1.rank(&ps0), Rank::Less);
    assert_eq!(ps0.rank(&ps2), Rank::Less);
    assert_eq!(ps2.rank(&ps2), Rank::Equal);
    assert_eq!(md2.0[0].distance, Some(MatchDistance(0)));
    assert_eq!(md2.0[0].index, 1);
}

#[test]
fn lengths_are_capped() {
    let long: String = std::iter::repeat('a').take(300).collect();
    let searcher = one_attribute(&[long.as_str(), "aaa"]);
    let results = searcher.query(&SearchQuery::new(0, "aa*"));
    assert_eq!(
        results.get_doc_attr_words_with_distance_and_query_index(DocId::from(0), "*"),
        vec![(long.clone(), 253, 0)]
    );
    assert_eq!(
        results.get_doc_attr_words_with_distance_and_query_index(DocId::from(1), "*"),
        vec![("aaa".to_string(), 1, 0)]
    );
    let query = SearchQuery::new(0, &long);
    assert_eq!(query.words()[0].len(), 255);
}
