use vstd::prelude::*;

use crate::error::SearchEngineError;
use crate::id_set::IdSet;
use crate::query::Query;
use crate::query::QueryModel;
use crate::query::SupportedQueries;
use crate::values::AttributeValue;

pub mod btree_range;
pub mod hashmap;
pub mod posting_list;
pub mod prefix;


verus! {

/// Whether an executable search result agrees with a specification
/// result: the same error, or a well-formed set with the specified
/// elements.
pub open spec fn result_matches<P>(
    r: Result<IdSet<P>, SearchEngineError>,
    m: Result<Set<P>, SearchEngineError>,
) -> bool {
    match (r, m) {
        (Ok(s), Ok(sm)) => s@ == sm && s.wf(),
        (Err(e1), Err(e2)) => e1 == e2,
        _ => false,
    }
}

/// This trait describes the minimum features an index must support to
/// be usable as a search index, for example in a
/// [`SearchEngine`](crate::engine::SearchEngine).
///
/// Each implementation fixes its own semantics by defining
/// [`search_spec`](SearchIndex::search_spec): the exact result set or
/// error of every query, as a function of what was inserted.
pub trait SearchIndex<P> {
    /// Well-formedness of the index's internal state.
    spec fn wf_index(&self) -> bool;

    /// The specified outcome of `search` on query `q`: either the set
    /// of all matching primary identifiers or the error the query
    /// provokes.
    spec fn search_spec(&self, q: QueryModel) -> Result<Set<P>, SearchEngineError>;

    /// The specified capability bitmask of the index.
    spec fn supported_spec(&self) -> SupportedQueries;

    /// Performs a search on the index.
    ///
    /// This function returns a set of all matching primary
    /// identifiers.  It may not accept all variants of [`Query`] but
    /// only a subset.  If a query is not supported, it returns
    /// [`UnsupportedQuery`](SearchEngineError::UnsupportedQuery); if a
    /// textual payload cannot be parsed to the expected value type, it
    /// returns
    /// [`MismatchedQueryType`](SearchEngineError::MismatchedQueryType).
    fn search(&self, query: &Query) -> (r: Result<IdSet<P>, SearchEngineError>)
        requires
            self.wf_index(),
        ensures
            result_matches(r, self.search_spec(query@)),
    ;

    /// Returns which queries are directly supported by the index.
    ///
    /// The query compiler consults this bitmask to decide which
    /// operators (`=`, `>`, `<`, `-`) a value may use against the
    /// index.
    fn supported_queries(&self) -> (r: SupportedQueries)
        ensures
            r == self.supported_spec(),
    ;
}

/// Tries to parse a string into a payload value.
///
/// If parsing fails it returns
/// [`MismatchedQueryType`](SearchEngineError::MismatchedQueryType) to
/// signal failure.
pub fn string_to_payload_type<T: AttributeValue>(value: &str) -> (r: Result<
    T,
    SearchEngineError,
>)
    ensures
        match (r, T::parse_spec(value@)) {
            (Ok(v), Some(m)) => v.model() == m,
            (Err(e), None) => e == SearchEngineError::MismatchedQueryType,
            _ => false,
        },
{
    match T::parse_text(value) {
        Some(v) => Ok(v),
        None => Err(SearchEngineError::MismatchedQueryType),
    }
}

} // verus!
