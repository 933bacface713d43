//! An in-memory full-text search engine for small document collections.
//!
//! Documents carry string attributes. Each attribute is tokenized into words that are
//! kept in a pair of inverted indices (one in reading order, one with every word
//! reversed), queried by word with one of five operators, and ranked tier by tier.

pub mod attr_id;
pub mod attr_map;
pub mod attr_props;
pub mod bitmap;
pub mod chars;
pub mod comparers;
pub mod coverage;
pub mod direction;
pub mod doc_id;
pub mod fuzzy;
pub mod index;
pub mod index_laws;
pub mod index_model;
pub mod index_results;
pub mod index_to_query;
pub mod match_distance;
pub mod match_entry;
pub mod min_match_level;
pub mod mirror;
pub mod presence;
pub mod scan_laws;
pub mod search_query;
pub mod search_results;
pub mod searcher;
pub mod sorted;
pub mod str_intern;
pub mod tiers;
pub mod tokenizer;
pub mod word;
pub mod word_index;
pub mod word_query;
pub mod word_query_op;

pub use attr_id::AttrId;
pub use attr_props::AttrProps;
pub use comparers::{compare, Comparer};
pub use direction::Direction;
pub use doc_id::DocId;
pub use match_distance::MatchDistance;
pub use match_entry::MatchEntry;
pub use min_match_level::MinMatchLevel;
pub use presence::Presence;
pub use search_query::SearchQuery;
pub use search_results::SearchResults;
pub use searcher::Searcher;
pub use word_query_op::WordQueryOp;
