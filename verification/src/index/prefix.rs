use vstd::prelude::*;

use crate::error::SearchEngineError;
use crate::id_set::IdSet;
use crate::id_set::PrimaryId;
use crate::index::SearchIndex;
use crate::query::Query;
use crate::query::QueryModel;
use crate::query::SupportedQueries;
use crate::query::SUPPORTS_EXACT;
use crate::query::SUPPORTS_PREFIX;

pub mod tree;

use tree::HashSetPrefixTree;

verus! {

/// SearchIndexPrefixTree is an index backed by a prefix tree that can
/// match [Exact](Query::Exact) and [Prefix](Query::Prefix) queries.
/// It can only store text attribute values.
///
/// Its contents are modelled by
/// [`ids_at`](SearchIndexPrefixTree::ids_at): the set of primary
/// identifiers inserted under each exact key.
pub struct SearchIndexPrefixTree<P> {
    index: HashSetPrefixTree<P>,
}

impl<P> SearchIndexPrefixTree<P> {
    /// Well-formedness of the index.
    pub closed spec fn wf(&self) -> bool {
        self.index.wf()
    }

    /// The set of primary identifiers inserted under exactly `key`.
    pub closed spec fn ids_at(&self, key: Seq<char>) -> Set<P> {
        self.index.ids_at(key)
    }

    /// The set of primary identifiers inserted under any key that
    /// extends `prefix` (including `prefix` itself).
    pub open spec fn prefix_ids(&self, prefix: Seq<char>) -> Set<P> {
        Set::new(|p: P| exists|t: Seq<char>| #[trigger] self.ids_at(prefix + t).contains(p))
    }

    /// The effect of inserting identifier `id` under `key`: `post`
    /// has `id` added to the posting of `key` and is otherwise
    /// identical to `pre`.
    pub open spec fn insert_effect(pre: Self, post: Self, id: P, key: Seq<char>) -> bool {
        &&& post.wf()
        &&& post.ids_at(key) == pre.ids_at(key).insert(id)
        &&& forall|k: Seq<char>| k != key ==> #[trigger] post.ids_at(k) == pre.ids_at(k)
    }

    /// Inserting the same pair twice has no further effect: a state
    /// reached by a repeated insertion is observably identical — the
    /// same posting under every key — to the state before the
    /// repetition.
    pub proof fn lemma_insert_idempotent(pre: Self, mid: Self, post: Self, id: P, key: Seq<char>)
        requires
            Self::insert_effect(pre, mid, id, key),
            Self::insert_effect(mid, post, id, key),
        ensures
            forall|k: Seq<char>| #[trigger] post.ids_at(k) == mid.ids_at(k),
    {
        assert forall|k: Seq<char>| #[trigger] post.ids_at(k) == mid.ids_at(k) by {
            if k == key {
                assert(post.ids_at(key) =~= mid.ids_at(key));
            }
        }
    }
}

impl<P: PrimaryId> SearchIndexPrefixTree<P> {
    /// Creates a new `SearchIndexPrefixTree`.
    pub fn new() -> (r: Self)
        ensures
            r.wf(),
            forall|key: Seq<char>| #[trigger] r.ids_at(key) == Set::<P>::empty(),
    {
        SearchIndexPrefixTree { index: HashSetPrefixTree::new() }
    }

    /// Inserts a new entry into the index: `primary_id` is added to
    /// the posting for `attribute_value`.  The same primary identifier
    /// can be inserted under several values.
    pub fn insert(&mut self, primary_id: P, attribute_value: String)
        requires
            old(self).wf(),
        ensures
            Self::insert_effect(*old(self), *final (self), primary_id, attribute_value@),
    {
        self.index.insert(attribute_value.as_str(), primary_id);
    }

    /// The comprehension over the index's key map agrees with the one
    /// over the underlying tree.
    proof fn lemma_prefix_agree(&self, prefix: Seq<char>)
        ensures
            self.prefix_ids(prefix) == Set::new(
                |p: P|
                    exists|t: Seq<char>| #[trigger] self.index.ids_at(prefix + t).contains(p),
            ),
    {
        let inner = Set::new(
            |p: P| exists|t: Seq<char>| #[trigger] self.index.ids_at(prefix + t).contains(p),
        );
        assert forall|p: P| self.prefix_ids(prefix).contains(p) implies inner.contains(p) by {
            let t = choose|t: Seq<char>| #[trigger] self.ids_at(prefix + t).contains(p);
            assert(self.index.ids_at(prefix + t).contains(p));
        }
        assert forall|p: P| inner.contains(p) implies self.prefix_ids(prefix).contains(p) by {
            let t = choose|t: Seq<char>| #[trigger] self.index.ids_at(prefix + t).contains(p);
            assert(self.ids_at(prefix + t).contains(p));
        }
        assert(self.prefix_ids(prefix) =~= inner);
    }
}

impl<P: PrimaryId> SearchIndex<P> for SearchIndexPrefixTree<P> {
    open spec fn wf_index(&self) -> bool {
        self.wf()
    }

    /// Exact queries return the posting stored under exactly the
    /// payload; prefix queries the union of the postings of all keys
    /// that extend the payload; every other variant is unsupported.
    open spec fn search_spec(&self, q: QueryModel) -> Result<Set<P>, SearchEngineError> {
        match q {
            QueryModel::Exact(_, s) => Ok(self.ids_at(s)),
            QueryModel::Prefix(_, s) => Ok(self.prefix_ids(s)),
            _ => Err(SearchEngineError::UnsupportedQuery),
        }
    }

    open spec fn supported_spec(&self) -> SupportedQueries {
        SUPPORTS_EXACT | SUPPORTS_PREFIX
    }

    fn search(&self, query: &Query) -> (r: Result<IdSet<P>, SearchEngineError>) {
        match query {
            Query::Exact(_, value) => match self.index.get(value.as_str()) {
                Some(s) => Ok(s),
                None => Ok(IdSet::new()),
            },
            Query::Prefix(_, value) => match self.index.get_prefix(value.as_str()) {
                Some(s) => {
                    proof {
                        self.index.lemma_subtree_is_prefix_reach(value@);
                        self.lemma_prefix_agree(value@);
                    }
                    Ok(s)
                },
                None => {
                    proof {
                        self.index.lemma_no_node_no_extensions(value@);
                        self.lemma_prefix_agree(value@);
                        assert(self.prefix_ids(value@) =~= Set::<P>::empty());
                    }
                    Ok(IdSet::new())
                },
            },
            _ => Err(SearchEngineError::UnsupportedQuery),
        }
    }

    fn supported_queries(&self) -> (r: SupportedQueries) {
        SUPPORTS_EXACT | SUPPORTS_PREFIX
    }
}

impl<P: PrimaryId> Default for SearchIndexPrefixTree<P> {
    /// An empty index, as [`SearchIndexPrefixTree::new`] builds it.
    fn default() -> (r: Self)
        ensures
            r.wf(),
            forall|key: Seq<char>| #[trigger] r.ids_at(key) == Set::<P>::empty(),
    {
        Self::new()
    }
}

} // verus!
