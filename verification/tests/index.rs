use searcher::attr_map::{Attr, AttrMap};
use searcher::index::Index;
use searcher::tokenizer::tokenize;
use searcher::chars::chars_of;
use searcher::word_query::WordQuery;
use searcher::{Direction, DocId, MatchDistance, Presence, WordQueryOp};

fn create_index(docs: &[&str], direction: Direction) -> Index {
    let mut index = Index::new(direction);
    let mut attrs = AttrMap::default();
    attrs.insert("*".to_string(), Attr { culture: None, direction, priority: 0, index: 0 });
    index.ensure_culture(&attrs);
    for (doc_id, doc) in docs.iter().enumerate() {
        index.insert_doc_attribute(DocId::from(doc_id as u32), 0, None, doc);
    }
    index
}

fn run(index: &Index, word: &str, op: WordQueryOp) -> Vec<(MatchDistance, String)> {
    let mut out = Vec::new();
    index.query(&WordQuery::new(word, op, Presence::Optional, 0), 0, &mut out);
    out.iter().map(|e| (e.distance, e.word_string())).collect()
}

fn expected(list: &[(u8, &str)]) -> Vec<(MatchDistance, String)> {
    list.iter().map(|(d, w)| (MatchDistance(*d), w.to_string())).collect()
}

#[test]
fn contains_forward() {
    let index = create_index(&["country", "countries"], Direction::Forward);
    assert_eq!(run(&index, "oun", WordQueryOp::Contains), expected(&[(6, "countries"), (4, "country")]));
}

#[test]
fn contains_backward() {
    let index = create_index(&["country", "countries"], Direction::Backward);
    assert_eq!(run(&index, "oun", WordQueryOp::Contains), expected(&[(6, "seirtnuoc"), (4, "yrtnuoc")]));
}

#[test]
fn fuzzy_backward() {
    let index = create_index(&["country", "countries"], Direction::Backward);
    assert_eq!(run(&index, "country", WordQueryOp::Fuzzy), expected(&[(0, "yrtnuoc")]));
}

#[test]
fn fuzzy_forward() {
    let index = create_index(&["country", "countries"], Direction::Forward);
    assert_eq!(run(&index, "country", WordQueryOp::Fuzzy), expected(&[(3, "countries"), (0, "country")]));
}

#[test]
fn fuzzy_longer_query() {
    let index = create_index(&["country"], Direction::Forward);
    assert_eq!(run(&index, "countries", WordQueryOp::Fuzzy), expected(&[(5, "country")]));
}

#[test]
fn fuzzy_short_query_is_a_prefix() {
    let forward = create_index(&["dmo", "do", "demo"], Direction::Forward);
    assert_eq!(run(&forward, "dm", WordQueryOp::Fuzzy), expected(&[(1, "dmo")]));
    assert_eq!(run(&forward, "dmo", WordQueryOp::Fuzzy), expected(&[(2, "demo"), (0, "dmo"), (2, "do")]));
    let backward = create_index(&["dmo", "do", "demo"], Direction::Backward);
    assert_eq!(run(&backward, "dm", WordQueryOp::Fuzzy), expected(&[(1, "omd")]));
}

#[test]
fn both_directions_answer_alike() {
    let docs = ["country", "countries", "count", "try"];
    let forward = create_index(&docs, Direction::Forward);
    let backward = create_index(&docs, Direction::Backward);
    for op in [WordQueryOp::Eq, WordQueryOp::StartsWith, WordQueryOp::EndsWith, WordQueryOp::Contains] {
        for word in ["coun", "try", "country", "o", ""] {
            let mut there = run(&forward, word, op);
            let mut back: Vec<(MatchDistance, String)> = run(&backward, word, op)
                .into_iter()
                .map(|(d, w)| (d, w.chars().rev().collect()))
                .collect();
            there.sort();
            back.sort();
            assert_eq!(there, back);
        }
    }
    assert_eq!(run(&forward, "coun", WordQueryOp::StartsWith), expected(&[(1, "count"), (5, "countries"), (3, "country")]));
    assert_eq!(run(&backward, "coun", WordQueryOp::StartsWith), expected(&[(5, "seirtnuoc"), (1, "tnuoc"), (3, "yrtnuoc")]));
    assert_eq!(run(&forward, "try", WordQueryOp::EndsWith), expected(&[(4, "country"), (0, "try")]));
    assert_eq!(run(&backward, "try", WordQueryOp::EndsWith), expected(&[(0, "yrt"), (4, "yrtnuoc")]));
}

#[test]
fn an_index_without_tables_answers_nothing() {
    let mut index = Index::new(Direction::Forward);
    index.insert_doc_attribute(DocId::from(0), 0, None, "lost words");
    assert_eq!(0, index.docs().len());
    assert_eq!(run(&index, "lost", WordQueryOp::Eq), expected(&[]));
}

#[test]
fn a_missing_culture_falls_back_to_the_first_table() {
    let index = create_index(&["apple"], Direction::Forward);
    let mut out = Vec::new();
    index.query(&WordQuery::new("apple", WordQueryOp::Eq, Presence::Optional, 0), 9, &mut out);
    assert_eq!(out.len(), 1);
}

#[test]
fn new_culture_tables_get_the_words_without_culture() {
    let mut index = Index::new(Direction::Forward);
    let mut attrs = AttrMap::default();
    attrs.insert("*".to_string(), Attr { culture: None, direction: Direction::Forward, priority: 0, index: 0 });
    attrs.insert("en".to_string(), Attr { culture: Some(0), direction: Direction::Forward, priority: 0, index: 1 });
    index.ensure_culture(&attrs);
    index.insert_doc_attribute(DocId::from(0), 0, None, "shared");
    index.insert_doc_attribute(DocId::from(0), 1, Some(0), "english");
    assert_eq!(1, index.per_culture().len());

    attrs.insert("fr".to_string(), Attr { culture: Some(2), direction: Direction::Forward, priority: 0, index: 2 });
    index.ensure_culture(&attrs);
    assert_eq!(3, index.per_culture().len());
    assert_eq!(2, index.per_culture()[0].len());
    assert_eq!(1, index.per_culture()[1].len());
    assert_eq!(1, index.per_culture()[2].len());
    assert!(index.per_culture()[2].contains_word(&chars_of("shared")));

    attrs.shift_remove("fr");
    index.ensure_culture(&attrs);
    assert_eq!(1, index.per_culture().len());
    assert_eq!(index.word_intern().to_strings(), vec!["english".to_string(), "shared".to_string()]);

    attrs.clear();
    index.ensure_culture(&attrs);
    assert_eq!(0, index.per_culture().len());
    assert_eq!(0, index.word_intern().len());
}

#[test]
fn tokens_of_a_value() {
    let words = |s: &str| -> Vec<String> {
        tokenize(&chars_of(s)).iter().map(|w| w.iter().collect()).collect()
    };
    assert_eq!(words("Air Canada"), vec!["air", "canada"]);
    assert_eq!(words("abc123def"), vec!["abc", "123", "def"]);
    assert_eq!(words("  x-ray, 42!"), vec!["x", "ray", "42"]);
    assert_eq!(words("# 5 \u{b0} c#"), vec!["#", "5", "\u{b0}", "c"]);
    assert_eq!(words("c#"), vec!["c"]);
    assert_eq!(words("c #"), vec!["c", "#"]);
    assert_eq!(words("c#d 4\u{b0}5"), vec!["c", "d", "4", "5"]);
    assert_eq!(words("(#) ## \u{b0}x"), vec!["#", "\u{b0}", "x"]);
    assert_eq!(words(""), Vec::<String>::new());
    assert_eq!(words("...  "), Vec::<String>::new());
}
