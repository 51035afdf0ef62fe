use vstd::prelude::*;

verus! {

/// Enum of all possible error types that the attribute search engine
/// can produce by itself.
///
/// Every fallible operation of the library either succeeds with a
/// (possibly empty) result set or fails with exactly one of these
/// variants; no partial results are ever returned.
#[derive(Debug, Clone, Copy, PartialEq, Eq, Structural)]
pub enum SearchEngineError {
    /// An unknown attribute was requested, for example by a
    /// [`Query`](crate::query::Query) leaf or by a query-string
    /// attribute token that names an unregistered index.
    UnknownAttribute,

    /// A [`Query`](crate::query::Query) value cannot be processed by a
    /// specific search index because the string cannot be converted to
    /// the expected value type.
    MismatchedQueryType,

    /// A [`Query`](crate::query::Query) variant was routed to an index
    /// whose capabilities do not include it.
    UnsupportedQuery,
}

impl SearchEngineError {
    /// A human-readable description of the error.
    pub fn describe(&self) -> (r: &'static str)
        ensures
            *self is UnknownAttribute ==> r@ == "Unknown attribute error"@,
            *self is MismatchedQueryType ==> r@ == "Mismatched query type"@,
            *self is UnsupportedQuery ==> r@ == "Unsupported query"@,
    {
        match self {
            SearchEngineError::UnknownAttribute => "Unknown attribute error",
            SearchEngineError::MismatchedQueryType => "Mismatched query type",
            SearchEngineError::UnsupportedQuery => "Unsupported query",
        }
    }
}

} // verus!
