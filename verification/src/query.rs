use vstd::prelude::*;

verus! {

/// Query is a recursive datatype that describes a query to a search
/// index or engine.
///
/// The query only takes strings as parameters.  It is up to the search
/// index to parse each string into its expected value type.
///
/// Leaves name an attribute and carry textual payloads; `Or`, `And` and
/// `Exclude` combine subqueries.  Not every leaf variant is supported
/// by every index type.
#[derive(Debug, PartialEq)]
pub enum Query {
    /// Only matches if the attribute has exactly the value of the query.
    Exact(String, String),
    /// Matches if the attribute starts with the value of the query.
    Prefix(String, String),
    /// Matches if the attribute is in the range of the two query
    /// values.  First is the minimum, second the maximum, both
    /// inclusive.
    InRange(String, String, String),
    /// Matches if the attribute is NOT in the range of the two query
    /// values.  A value equal to the start or the end counts as in
    /// range and is not returned.
    OutRange(String, String, String),
    /// Matches if the attribute is at least as high as the query value.
    Minimum(String, String),
    /// Matches if the attribute is at most as high as the query value.
    Maximum(String, String),
    /// Matches if at least one of the subqueries matches.
    Or(Vec<Query>),
    /// Only matches if all subqueries match.
    And(Vec<Query>),
    /// Removes all matches of the first query that appear in at least
    /// one of the queries of the vector.
    Exclude(Box<Query>, Vec<Query>),
}

/// The mathematical shape of a [`Query`]: the same tree with every
/// string replaced by its character sequence.  Contracts and the
/// engine's evaluation semantics are stated over this type.
pub enum QueryModel {
    /// Model of [`Query::Exact`].
    Exact(Seq<char>, Seq<char>),
    /// Model of [`Query::Prefix`].
    Prefix(Seq<char>, Seq<char>),
    /// Model of [`Query::InRange`].
    InRange(Seq<char>, Seq<char>, Seq<char>),
    /// Model of [`Query::OutRange`].
    OutRange(Seq<char>, Seq<char>, Seq<char>),
    /// Model of [`Query::Minimum`].
    Minimum(Seq<char>, Seq<char>),
    /// Model of [`Query::Maximum`].
    Maximum(Seq<char>, Seq<char>),
    /// Model of [`Query::Or`].
    Or(Seq<QueryModel>),
    /// Model of [`Query::And`].
    And(Seq<QueryModel>),
    /// Model of [`Query::Exclude`].
    Exclude(Box<QueryModel>, Seq<QueryModel>),
}

impl View for Query {
    type V = QueryModel;

    open spec fn view(&self) -> QueryModel
        decreases self,
    {
        match self {
            Query::Exact(a, s) => QueryModel::Exact(a@, s@),
            Query::Prefix(a, s) => QueryModel::Prefix(a@, s@),
            Query::InRange(a, lo, hi) => QueryModel::InRange(a@, lo@, hi@),
            Query::OutRange(a, lo, hi) => QueryModel::OutRange(a@, lo@, hi@),
            Query::Minimum(a, s) => QueryModel::Minimum(a@, s@),
            Query::Maximum(a, s) => QueryModel::Maximum(a@, s@),
            Query::Or(qs) => QueryModel::Or(
                Seq::new(
                    qs@.len(),
                    |i: int|
                        if 0 <= i < qs@.len() {
                            qs@[i]@
                        } else {
                            QueryModel::Or(Seq::empty())
                        },
                ),
            ),
            Query::And(qs) => QueryModel::And(
                Seq::new(
                    qs@.len(),
                    |i: int|
                        if 0 <= i < qs@.len() {
                            qs@[i]@
                        } else {
                            QueryModel::Or(Seq::empty())
                        },
                ),
            ),
            Query::Exclude(base, qs) => QueryModel::Exclude(
                Box::new((**base)@),
                Seq::new(
                    qs@.len(),
                    |i: int|
                        if 0 <= i < qs@.len() {
                            qs@[i]@
                        } else {
                            QueryModel::Or(Seq::empty())
                        },
                ),
            ),
        }
    }
}

/// Bitmask type for the queries that an index supports.
pub type SupportedQueries = u8;

/// Signals that an index supports [Exact queries](Query::Exact).
pub const SUPPORTS_EXACT: SupportedQueries = 1;

/// Signals that an index supports [Prefix queries](Query::Prefix).
pub const SUPPORTS_PREFIX: SupportedQueries = 2;

/// Signals that an index supports [InRange queries](Query::InRange).
pub const SUPPORTS_INRANGE: SupportedQueries = 4;

/// Signals that an index supports [OutRange queries](Query::OutRange).
pub const SUPPORTS_OUTRANGE: SupportedQueries = 8;

/// Signals that an index supports [Minimum queries](Query::Minimum).
pub const SUPPORTS_MINIMUM: SupportedQueries = 16;

/// Signals that an index supports [Maximum queries](Query::Maximum).
pub const SUPPORTS_MAXIMUM: SupportedQueries = 32;

/// Whether capability `bit` is set in `mask`.
pub open spec fn supports(mask: SupportedQueries, bit: SupportedQueries) -> bool {
    mask & bit != 0
}

} // verus!
