use vstd::prelude::*;

use crate::error::SearchEngineError;
use crate::id_set::IdSet;
use crate::id_set::PrimaryId;
use crate::index::posting_list::PostingList;
use crate::index::string_to_payload_type;
use crate::index::SearchIndex;
use crate::query::Query;
use crate::query::QueryModel;
use crate::query::SupportedQueries;
use crate::query::SUPPORTS_EXACT;
use crate::values::AttributeValue;

verus! {

/// SearchIndexHashMap is an index over a parseable value type that can
/// match [Exact queries](Query::Exact), and nothing else.
///
/// Its contents are modelled by [`posting`](SearchIndexHashMap::posting):
/// the set of primary identifiers inserted under each value model.
pub struct SearchIndexHashMap<P, V> {
    index: PostingList<P, V>,
}

impl<P, V: AttributeValue> SearchIndexHashMap<P, V> {
    /// Well-formedness of the index.
    pub closed spec fn wf(&self) -> bool {
        self.index.wf()
    }

    /// The set of primary identifiers inserted under value model `m`.
    pub closed spec fn posting(&self, m: V::Model) -> Set<P> {
        self.index.posting(m)
    }

    /// The set of value models under which something was inserted.
    pub closed spec fn keys(&self) -> Set<V::Model> {
        self.index.keys()
    }

    /// The effect of inserting identifier `id` under value model `m`:
    /// `post` has `id` added to the posting of `m` and is otherwise
    /// identical to `pre`.
    pub open spec fn insert_effect(pre: Self, post: Self, id: P, m: V::Model) -> bool {
        &&& post.wf()
        &&& post.keys() == pre.keys().insert(m)
        &&& post.posting(m) == pre.posting(m).insert(id)
        &&& forall|n: V::Model| n != m ==> #[trigger] post.posting(n) == pre.posting(n)
    }

    /// Inserting the same pair twice has no further effect: a state
    /// reached by a repeated insertion is observably identical — same
    /// keys, same postings — to the state before the repetition.
    pub proof fn lemma_insert_idempotent(pre: Self, mid: Self, post: Self, id: P, m: V::Model)
        requires
            Self::insert_effect(pre, mid, id, m),
            Self::insert_effect(mid, post, id, m),
        ensures
            post.keys() == mid.keys(),
            forall|n: V::Model| #[trigger] post.posting(n) == mid.posting(n),
    {
        assert(post.keys() =~= mid.keys());
        assert forall|n: V::Model| #[trigger] post.posting(n) == mid.posting(n) by {
            if n == m {
                assert(post.posting(m) =~= mid.posting(m));
            }
        }
    }
}

impl<P: PrimaryId, V: AttributeValue> SearchIndexHashMap<P, V> {
    /// Creates a new `SearchIndexHashMap`.
    pub fn new() -> (r: Self)
        ensures
            r.wf(),
            r.keys() == Set::<V::Model>::empty(),
            forall|m: V::Model| #[trigger] r.posting(m) == Set::<P>::empty(),
    {
        SearchIndexHashMap { index: PostingList::new() }
    }

    /// Inserts a new entry into the index: `primary_id` is added to
    /// the posting for `attribute_value`.  The same primary identifier
    /// can be inserted under several values.
    pub fn insert(&mut self, primary_id: P, attribute_value: V)
        requires
            old(self).wf(),
        ensures
            Self::insert_effect(*old(self), *final (self), primary_id, attribute_value.model()),
    {
        self.index.insert(primary_id, attribute_value);
    }
}

impl<P: PrimaryId, V: AttributeValue> SearchIndex<P> for SearchIndexHashMap<P, V> {
    open spec fn wf_index(&self) -> bool {
        self.wf()
    }

    /// Exact queries return the posting of the parsed value; a payload
    /// that does not parse is a mismatch; every other variant is
    /// unsupported.
    open spec fn search_spec(&self, q: QueryModel) -> Result<Set<P>, SearchEngineError> {
        match q {
            QueryModel::Exact(_, s) => match V::parse_spec(s) {
                Some(m) => Ok(self.posting(m)),
                None => Err(SearchEngineError::MismatchedQueryType),
            },
            _ => Err(SearchEngineError::UnsupportedQuery),
        }
    }

    open spec fn supported_spec(&self) -> SupportedQueries {
        SUPPORTS_EXACT
    }

    fn search(&self, query: &Query) -> (r: Result<IdSet<P>, SearchEngineError>) {
        match query {
            Query::Exact(_, value_str) => {
                match string_to_payload_type::<V>(value_str.as_str()) {
                    Ok(value) => Ok(self.index.get_posting(&value)),
                    Err(e) => Err(e),
                }
            },
            _ => Err(SearchEngineError::UnsupportedQuery),
        }
    }

    fn supported_queries(&self) -> (r: SupportedQueries) {
        SUPPORTS_EXACT
    }
}

impl<P: PrimaryId, V: AttributeValue> Default for SearchIndexHashMap<P, V> {
    /// An empty index, as [`SearchIndexHashMap::new`] builds it.
    fn default() -> (r: Self)
        ensures
            r.wf(),
            r.keys() == Set::<V::Model>::empty(),
            forall|m: V::Model| #[trigger] r.posting(m) == Set::<P>::empty(),
    {
        Self::new()
    }
}

} // verus!
