//! An in-memory, embeddable multi-attribute search library.
//!
//! Rows are identified by a caller-chosen primary identifier and indexed
//! under one or more named attributes.  A query — either a hand-built
//! [`Query`](query::Query) tree or a query string compiled by
//! [`SearchEngine::query_from_str`](engine::SearchEngine::query_from_str) —
//! retrieves the set of primary identifiers whose attribute values satisfy
//! the predicate.
//!
//! The library provides three index types behind the common
//! [`SearchIndex`](index::SearchIndex) interface:
//!
//! - [`SearchIndexHashMap`](index::hashmap::SearchIndexHashMap): exact
//!   matching over any parseable value type;
//! - [`SearchIndexBTreeRange`](index::btree_range::SearchIndexBTreeRange):
//!   exact, range, minimum and maximum matching over an ordered value type;
//! - [`SearchIndexPrefixTree`](index::prefix::SearchIndexPrefixTree): exact
//!   and prefix matching over text, backed by an arena prefix tree.

pub mod engine;
pub mod error;
pub mod id_set;
pub mod index;
pub mod laws;
pub mod query;
pub mod query_lexer;
pub mod values;

pub use engine::EngineIndex;
pub use engine::SearchEngine;
pub use error::SearchEngineError;
pub use id_set::IdSet;
pub use id_set::PrimaryId;
pub use index::btree_range::SearchIndexBTreeRange;
pub use index::hashmap::SearchIndexHashMap;
pub use index::prefix::tree::HashSetPrefixTree;
pub use index::prefix::tree::TreeNode;
pub use index::prefix::SearchIndexPrefixTree;
pub use index::string_to_payload_type;
pub use index::SearchIndex;
pub use query::Query;
pub use query::QueryModel;
pub use query::SupportedQueries;
pub use query::SUPPORTS_EXACT;
pub use query::SUPPORTS_INRANGE;
pub use query::SUPPORTS_MAXIMUM;
pub use query::SUPPORTS_MINIMUM;
pub use query::SUPPORTS_OUTRANGE;
pub use query::SUPPORTS_PREFIX;
pub use query_lexer::QueryLexer;
pub use query_lexer::QueryToken;
pub use values::AttributeValue;
pub use values::OrderedValue;
