use searcher::{AttrProps, Direction, DocId, SearchQuery, Searcher};

fn strings(words: &[&str]) -> Vec<String> {
    words.iter().map(|w| w.to_string()).collect()
}

#[test]
fn insert_remove_backward() {
    let mut searcher = Searcher::new();

    searcher.set_attribute("*".into(), AttrProps::default().direction(Direction::Backward));

    searcher.insert_doc_attribute(DocId::from(0), "*", "balance balle");
    searcher.insert_doc_attribute(DocId::from(1), "*", "air");

    assert_eq!(2, searcher.backward().docs().len());
    assert_eq!(1, searcher.backward().per_culture().len());

    searcher.insert_doc_attribute(DocId::from(0), "*", "balance balle");
    searcher.insert_doc_attribute(DocId::from(1), "*", "air");

    assert_eq!(2, searcher.backward().docs().len());
    assert_eq!(1, searcher.backward().per_culture().len());
    assert_eq!(3, searcher.backward().per_culture()[0].len());
    assert_eq!(3, searcher.backward().word_intern().len());

    searcher.remove_doc(DocId::from(0));

    assert_eq!(2, searcher.backward().docs().len());
    assert!(searcher.backward().docs()[0].attrs().is_empty());
    assert_eq!(1, searcher.backward().per_culture()[0].len());
    assert_eq!(1, searcher.backward().word_intern().len());

    searcher.insert_doc_attribute(DocId::from(0), "*", "air balle");

    assert_eq!(2, searcher.backward().docs().len());
    assert!(!searcher.backward().docs()[0].attrs().is_empty());
    assert_eq!(searcher.backward().word_intern().to_strings(), strings(&["ellab", "ria"]));
    assert_eq!(2, searcher.backward().per_culture()[0].len());

    searcher.remove_doc(DocId::from(1));

    assert_eq!(2, searcher.backward().docs().len());
    assert!(searcher.backward().docs()[1].attrs().is_empty());
    assert_eq!(searcher.backward().word_intern().to_strings(), strings(&["ellab", "ria"]));
    assert_eq!(2, searcher.backward().per_culture()[0].len());
}

#[test]
fn insert_remove_culture() {
    let mut searcher = Searcher::new();
    searcher.set_attribute("en".into(), AttrProps::default().culture(0));
    searcher.set_attribute("fr".into(), AttrProps::default().culture(1));

    assert_eq!(2, searcher.attrs().len());
    assert_eq!(2, searcher.forward().per_culture().len());

    searcher.insert_doc_attribute(DocId::from(0), "en", "balance");
    searcher.insert_doc_attribute(DocId::from(1), "en", "total");

    searcher.insert_doc_attribute(DocId::from(0), "fr", "encours");
    searcher.insert_doc_attribute(DocId::from(1), "fr", "total");

    assert_eq!(2, searcher.forward().docs().len());
    assert_eq!(2, searcher.forward().per_culture()[0].len());

    assert!(searcher.query(&SearchQuery::new(0, "balance")).contains_doc_id(DocId::from(0)));

    assert!(searcher.query(&SearchQuery::new(1, "encours")).contains_doc_id(DocId::from(0)));

    assert!(!searcher.query(&SearchQuery::new(1, "balance")).contains_doc_id(DocId::from(0)));

    assert!(!searcher.query(&SearchQuery::new(0, "encours")).contains_doc_id(DocId::from(0)));

    searcher.remove_attr("fr");

    assert_eq!(1, searcher.attrs().len());
    assert_eq!(2, searcher.forward().docs().len());
    assert_eq!(1, searcher.forward().per_culture().len());
    assert_eq!(2, searcher.forward().per_culture()[0].len());
    assert_eq!(searcher.forward().word_intern().to_strings(), strings(&["balance", "total"]));
}

#[test]
fn search_with_and_without_culture() {
    let mut searcher = Searcher::new();
    searcher.set_attribute("en".into(), AttrProps::default().culture(0));
    searcher.set_attribute("fr".into(), AttrProps::default().culture(1));
    searcher.set_attribute("*".into(), AttrProps::default());

    assert_eq!(3, searcher.attrs().len());
    assert_eq!(2, searcher.forward().per_culture().len());

    searcher.insert_doc_attribute(DocId::from(0), "en", "balance");
    searcher.insert_doc_attribute(DocId::from(1), "en", "total");

    searcher.insert_doc_attribute(DocId::from(0), "fr", "encours");
    searcher.insert_doc_attribute(DocId::from(1), "fr", "total");

    searcher.insert_doc_attribute(DocId::from(0), "*", "test");
    searcher.insert_doc_attribute(DocId::from(1), "*", "app");

    assert_eq!(2, searcher.forward().docs().len());
    assert_eq!(4, searcher.forward().per_culture()[0].len());
    assert_eq!(4, searcher.forward().per_culture()[1].len());
    assert_eq!(
        searcher.forward().word_intern().to_strings(),
        strings(&["app", "balance", "encours", "test", "total"])
    );

    assert!(searcher.query(&SearchQuery::new(1, "test")).contains_doc_id(DocId::from(0)));

    assert!(searcher.query(&SearchQuery::new(0, "app")).contains_doc_id(DocId::from(1)));

    searcher.remove_attr("*");

    assert_eq!(2, searcher.attrs().len());
    assert_eq!(2, searcher.forward().docs().len());
    assert_eq!(2, searcher.forward().per_culture().len());
    assert_eq!(2, searcher.forward().per_culture()[0].len());

    assert_eq!(
        searcher.forward().word_intern().to_strings(),
        strings(&["balance", "encours", "total"])
    );
}

#[test]
fn registering_twice_changes_nothing() {
    let mut searcher = Searcher::new();
    assert!(searcher.set_attribute("title".into(), AttrProps::default().priority(2)));
    assert!(!searcher.set_attribute("title".into(), AttrProps::default().priority(0)));
    assert_eq!(1, searcher.attrs().len());
    assert_eq!(2, searcher.attrs()[0].priority);
    assert!(!searcher.remove_attr("body"));
    assert!(searcher.remove_attr("title"));
    assert_eq!(0, searcher.attrs().len());
    assert_eq!(0, searcher.forward().per_culture().len());
}

#[test]
fn attribute_indices_stay_dense() {
    let mut searcher = Searcher::new();
    searcher.set_attribute("a".into(), AttrProps::default());
    searcher.set_attribute("b".into(), AttrProps::default().direction(Direction::Backward));
    searcher.set_attribute("c".into(), AttrProps::default());
    searcher.set_attribute("d".into(), AttrProps::default());
    let indices: Vec<usize> = searcher.attrs().values().map(|a| a.index).collect();
    assert_eq!(indices, vec![0, 0, 1, 2]);

    searcher.insert_doc_attribute(DocId::from(0), "a", "first");
    searcher.insert_doc_attribute(DocId::from(0), "c", "second");
    searcher.insert_doc_attribute(DocId::from(0), "d", "third");
    searcher.insert_doc_attribute(DocId::from(0), "b", "back");

    searcher.remove_attr("a");
    let indices: Vec<usize> = searcher.attrs().values().map(|a| a.index).collect();
    assert_eq!(indices, vec![0, 0, 1]);
    assert_eq!(searcher.get_doc_attr_words(DocId::from(0), "c"), strings(&["second"]));
    assert_eq!(searcher.get_doc_attr_words(DocId::from(0), "d"), strings(&["third"]));
    assert_eq!(searcher.get_doc_attr_words(DocId::from(0), "b"), strings(&["kcab"]));
    assert_eq!(searcher.get_doc_attr_words(DocId::from(0), "a"), strings(&[]));
    assert_eq!(
        searcher.forward().word_intern().to_strings(),
        strings(&["second", "third"])
    );
}

#[test]
fn words_of_an_unknown_attribute_or_document() {
    let mut searcher = Searcher::new();
    searcher.set_attribute("*".into(), AttrProps::default());
    searcher.insert_doc_attribute(DocId::from(2), "*", "Hello, World 42");
    searcher.insert_doc_attribute(DocId::from(2), "nope", "ignored");
    assert_eq!(searcher.get_doc_attr_words(DocId::from(2), "*"), strings(&["hello", "world", "42"]));
    assert_eq!(searcher.get_doc_attr_words(DocId::from(1), "*"), strings(&[]));
    assert_eq!(searcher.get_doc_attr_words(DocId::from(7), "*"), strings(&[]));
    assert_eq!(searcher.get_doc_attr_words(DocId::from(2), "nope"), strings(&[]));
    assert_eq!(3, searcher.forward().docs().len());
    searcher.remove_doc(DocId::from(9));
    assert_eq!(3, searcher.forward().docs().len());
}

#[test]
fn an_empty_value_makes_no_record() {
    let mut searcher = Searcher::new();
    searcher.set_attribute("*".into(), AttrProps::default());
    searcher.insert_doc_attribute(DocId::from(4), "*", " ,; ");
    assert_eq!(0, searcher.forward().docs().len());
    searcher.insert_doc_attribute(DocId::from(0), "*", "word");
    searcher.insert_doc_attribute(DocId::from(0), "*", "");
    assert_eq!(1, searcher.forward().docs().len());
    assert_eq!(0, searcher.forward().per_culture()[0].len());
    assert_eq!(0, searcher.forward().word_intern().len());
}

#[test]
fn remove_then_insert_restores_the_index() {
    let mut searcher = Searcher::new();
    searcher.set_attribute("*".into(), AttrProps::default());
    searcher.insert_doc_attribute(DocId::from(0), "*", "air canada");
    searcher.insert_doc_attribute(DocId::from(1), "*", "air france");
    let words_before = searcher.forward().word_intern().to_strings();
    let rows_before = searcher.forward().per_culture()[0].len();

    searcher.remove_doc(DocId::from(1));
    assert_eq!(searcher.forward().word_intern().to_strings(), strings(&["air", "canada"]));
    searcher.insert_doc_attribute(DocId::from(1), "*", "air france");

    assert_eq!(searcher.forward().word_intern().to_strings(), words_before);
    assert_eq!(searcher.forward().per_culture()[0].len(), rows_before);
    assert_eq!(searcher.get_doc_attr_words(DocId::from(1), "*"), strings(&["air", "france"]));
    let table = &searcher.forward().per_culture()[0];
    let docs: Vec<Vec<u32>> = (0..table.len()).map(|i| table.docs_at(i).iter().collect()).collect();
    assert_eq!(docs, vec![vec![0, 1], vec![0], vec![1]]);
}

#[test]
fn presence_combines_the_documents() {
    let mut searcher = Searcher::new();
    searcher.set_attribute("*".into(), AttrProps::default());
    searcher.insert_doc_attribute(DocId::from(0), "*", "red apple");
    searcher.insert_doc_attribute(DocId::from(1), "*", "green apple");
    searcher.insert_doc_attribute(DocId::from(2), "*", "red cherry");

    let found = |text: &str| -> Vec<u32> {
        let results = searcher.query(&SearchQuery::new(0, text));
        (0..4).filter(|d| results.contains_doc_id(DocId::from(*d))).collect()
    };

    assert_eq!(found("'apple'"), vec![0, 1]);
    assert_eq!(found("'apple' 'cherry'"), vec![0, 1, 2]);
    assert_eq!(found("+'red'"), vec![0, 2]);
    assert_eq!(found("+'red' +'apple'"), vec![0]);
    assert_eq!(found("'apple' -'green'"), vec![0]);
    assert_eq!(found("+'red' -'cherry'"), vec![0]);
    assert_eq!(found("+'blue'"), Vec::<u32>::new());
    assert_eq!(found("+'blue' 'apple'"), Vec::<u32>::new());
    assert_eq!(found("'green' +'cherry'"), vec![1, 2]);
    assert_eq!(found(""), Vec::<u32>::new());
    assert_eq!(found("-'red'"), Vec::<u32>::new());
}

#[test]
fn matched_words_of_a_document() {
    let mut searcher = Searcher::new();
    searcher.set_attribute("title".into(), AttrProps::default());
    searcher.set_attribute("body".into(), AttrProps::default().direction(Direction::Backward));
    searcher.insert_doc_attribute(DocId::from(0), "title", "count the countries");
    searcher.insert_doc_attribute(DocId::from(0), "body", "a country");

    let results = searcher.query(&SearchQuery::new(0, "the count*"));
    assert_eq!(
        results.get_doc_attr_words_with_distance_and_query_index(DocId::from(0), "title"),
        vec![("count".to_string(), 0, 1), ("the".to_string(), 0, 0), ("countries".to_string(), 4, 1)]
    );
    assert_eq!(
        results.get_doc_attr_words_with_distance_and_query_index(DocId::from(0), "body"),
        vec![("yrtnuoc".to_string(), 2, 1)]
    );
    assert_eq!(
        results.get_doc_attr_words_with_distance_and_query_index(DocId::from(0), "none"),
        vec![]
    );
    assert_eq!(
        results.get_doc_words_with_attr_distance_and_query_index(DocId::from(0)),
        vec![
            ("title".to_string(), "count".to_string(), 0, 1),
            ("title".to_string(), "the".to_string(), 0, 0),
            ("title".to_string(), "countries".to_string(), 4, 1),
            ("body".to_string(), "yrtnuoc".to_string(), 2, 1)
        ]
    );
}

#[test]
fn tiers_ascend_by_priority() {
    let mut searcher = Searcher::new();
    searcher.set_attribute("e".into(), AttrProps::default().priority(5));
    searcher.set_attribute("a".into(), AttrProps::default().priority(1).direction(Direction::Backward));
    searcher.set_attribute("f".into(), AttrProps::default().priority(5).culture(1));
    searcher.set_attribute("c".into(), AttrProps::default().priority(3).culture(0));
    searcher.set_attribute("g".into(), AttrProps::default().priority(5));

    let tiers = searcher.attrs_priorities(0).clone();
    assert_eq!(
        tiers,
        vec![
            (1, vec![(Direction::Backward, 0)]),
            (3, vec![(Direction::Forward, 2)]),
            (5, vec![(Direction::Forward, 0), (Direction::Forward, 3)])
        ]
    );
    let tiers = searcher.attrs_priorities(1).clone();
    assert_eq!(
        tiers,
        vec![
            (1, vec![(Direction::Backward, 0)]),
            (5, vec![(Direction::Forward, 0), (Direction::Forward, 1), (Direction::Forward, 3)])
        ]
    );
    assert_eq!(searcher.attrs_priorities(9), searcher.attrs_priorities(0));
}

#[test]
fn a_query_answers_the_same_when_it_is_run_again() {
    let mut searcher = Searcher::new();
    searcher.set_attribute("there".into(), AttrProps::default());
    searcher.set_attribute("back".into(), AttrProps::default().direction(Direction::Backward));
    searcher.insert_doc_attribute(DocId::from(0), "there", "countries");
    searcher.insert_doc_attribute(DocId::from(1), "back", "country");
    searcher.insert_doc_attribute(DocId::from(2), "there", "county");

    let query = SearchQuery::new(0, "country");
    let run = |query: &SearchQuery| -> Vec<Vec<(String, u8, usize)>> {
        let results = searcher.query(query);
        vec![
            results.get_doc_attr_words_with_distance_and_query_index(DocId::from(0), "there"),
            results.get_doc_attr_words_with_distance_and_query_index(DocId::from(1), "back"),
            results.get_doc_attr_words_with_distance_and_query_index(DocId::from(2), "there"),
        ]
    };
    let first = run(&query);
    assert_eq!(
        first,
        vec![
            vec![("countries".to_string(), 3, 0)],
            vec![("yrtnuoc".to_string(), 0, 0)],
            vec![("county".to_string(), 2, 0)]
        ]
    );
    assert_eq!(run(&query), first);
    assert_eq!(run(&query), first);
}
