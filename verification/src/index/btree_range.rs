use vstd::prelude::*;

use crate::error::SearchEngineError;
use crate::id_set::IdSet;
use crate::id_set::PrimaryId;
use crate::index::posting_list::range_pred;
use crate::index::posting_list::PostingList;
use crate::index::string_to_payload_type;
use crate::index::SearchIndex;
use crate::query::Query;
use crate::query::QueryModel;
use crate::query::SupportedQueries;
use crate::query::SUPPORTS_EXACT;
use crate::query::SUPPORTS_INRANGE;
use crate::query::SUPPORTS_MAXIMUM;
use crate::query::SUPPORTS_MINIMUM;
use crate::query::SUPPORTS_OUTRANGE;
use crate::values::AttributeValue;
use crate::values::OrderedValue;

verus! {

/// SearchIndexBTreeRange is an index over an ordered value type that
/// can match [Exact](Query::Exact), [InRange](Query::InRange),
/// [OutRange](Query::OutRange), [Minimum](Query::Minimum) and
/// [Maximum](Query::Maximum) queries.
///
/// Its contents are modelled by
/// [`posting`](SearchIndexBTreeRange::posting): the set of primary
/// identifiers inserted under each value model; range queries collect
/// every posting whose value satisfies the bounds under the value
/// type's order.
pub struct SearchIndexBTreeRange<P, V> {
    index: PostingList<P, V>,
}

impl<P, V: AttributeValue> SearchIndexBTreeRange<P, V> {
    /// Well-formedness of the index.
    pub closed spec fn wf(&self) -> bool {
        self.index.wf()
    }

    /// The set of primary identifiers inserted under value model `m`.
    pub closed spec fn posting(&self, m: V::Model) -> Set<P> {
        self.index.posting(m)
    }

    /// The set of value models under which something was inserted.
    pub closed spec fn keys(&self) -> Set<V::Model> {
        self.index.keys()
    }

    /// The effect of inserting identifier `id` under value model `m`:
    /// `post` has `id` added to the posting of `m` and is otherwise
    /// identical to `pre`.
    pub open spec fn insert_effect(pre: Self, post: Self, id: P, m: V::Model) -> bool {
        &&& post.wf()
        &&& post.keys() == pre.keys().insert(m)
        &&& post.posting(m) == pre.posting(m).insert(id)
        &&& forall|n: V::Model| n != m ==> #[trigger] post.posting(n) == pre.posting(n)
    }

    /// Inserting the same pair twice has no further effect: a state
    /// reached by a repeated insertion is observably identical — same
    /// keys, same postings — to the state before the repetition.
    pub proof fn lemma_insert_idempotent(pre: Self, mid: Self, post: Self, id: P, m: V::Model)
        requires
            Self::insert_effect(pre, mid, id, m),
            Self::insert_effect(mid, post, id, m),
        ensures
            post.keys() == mid.keys(),
            forall|n: V::Model| #[trigger] post.posting(n) == mid.posting(n),
    {
        assert(post.keys() =~= mid.keys());
        assert forall|n: V::Model| #[trigger] post.posting(n) == mid.posting(n) by {
            if n == m {
                assert(post.posting(m) =~= mid.posting(m));
            }
        }
    }
}

impl<P, V: OrderedValue> SearchIndexBTreeRange<P, V> {
    /// The set of identifiers posted under any value model that
    /// satisfies the range predicate.
    pub open spec fn ids_in_range(
        &self,
        lo: Option<V::Model>,
        hi: Option<V::Model>,
        outside: bool,
    ) -> Set<P> {
        Set::new(
            |p: P|
                exists|m: V::Model|
                    #[trigger] self.posting(m).contains(p) && range_pred::<V>(lo, hi, outside, m),
        )
    }
}

impl<P: PrimaryId, V: OrderedValue> SearchIndexBTreeRange<P, V> {
    /// The range comprehension over the index's postings agrees with
    /// the one over the underlying posting list.
    proof fn lemma_range_agree(
        &self,
        lo: Option<V::Model>,
        hi: Option<V::Model>,
        outside: bool,
    )
        ensures
            self.ids_in_range(lo, hi, outside) == self.index.ids_in_range(lo, hi, outside),
    {
        assert forall|p: P| self.ids_in_range(lo, hi, outside).contains(p)
            implies self.index.ids_in_range(lo, hi, outside).contains(p) by {
            let m = choose|m: V::Model|
                #[trigger] self.posting(m).contains(p) && range_pred::<V>(lo, hi, outside, m);
            assert(self.index.posting(m).contains(p));
        }
        assert forall|p: P| self.index.ids_in_range(lo, hi, outside).contains(p)
            implies self.ids_in_range(lo, hi, outside).contains(p) by {
            let m = choose|m: V::Model|
                #[trigger] self.index.posting(m).contains(p) && range_pred::<V>(
                    lo,
                    hi,
                    outside,
                    m,
                );
            assert(self.posting(m).contains(p));
        }
        assert(self.ids_in_range(lo, hi, outside) =~= self.index.ids_in_range(lo, hi, outside));
    }

    /// Creates a new `SearchIndexBTreeRange`.
    pub fn new() -> (r: Self)
        ensures
            r.wf(),
            r.keys() == Set::<V::Model>::empty(),
            forall|m: V::Model| #[trigger] r.posting(m) == Set::<P>::empty(),
    {
        SearchIndexBTreeRange { index: PostingList::new() }
    }

    /// Inserts a new entry into the index: `primary_id` is added to
    /// the posting for `attribute_value`.  The same primary identifier
    /// can be inserted under several values.
    pub fn insert(&mut self, primary_id: P, attribute_value: V)
        requires
            old(self).wf(),
        ensures
            Self::insert_effect(*old(self), *final (self), primary_id, attribute_value.model()),
    {
        self.index.insert(primary_id, attribute_value);
    }
}

impl<P: PrimaryId, V: OrderedValue> SearchIndex<P> for SearchIndexBTreeRange<P, V> {
    open spec fn wf_index(&self) -> bool {
        self.wf()
    }

    /// Exact queries return the posting of the parsed value; range,
    /// minimum and maximum queries the union of all postings whose
    /// value satisfies the bounds; a range whose start exceeds its end
    /// is empty; a payload that does not parse is a mismatch;
    /// [Prefix](Query::Prefix) and the combinators are unsupported.
    open spec fn search_spec(&self, q: QueryModel) -> Result<Set<P>, SearchEngineError> {
        match q {
            QueryModel::Exact(_, s) => match V::parse_spec(s) {
                Some(m) => Ok(self.posting(m)),
                None => Err(SearchEngineError::MismatchedQueryType),
            },
            QueryModel::InRange(_, lo_s, hi_s) => match (V::parse_spec(lo_s), V::parse_spec(
                hi_s,
            )) {
                (Some(lo), Some(hi)) => if !V::le(lo, hi) {
                    Ok(Set::empty())
                } else {
                    Ok(self.ids_in_range(Some(lo), Some(hi), false))
                },
                _ => Err(SearchEngineError::MismatchedQueryType),
            },
            QueryModel::Minimum(_, lo_s) => match V::parse_spec(lo_s) {
                Some(lo) => Ok(self.ids_in_range(Some(lo), None, false)),
                None => Err(SearchEngineError::MismatchedQueryType),
            },
            QueryModel::Maximum(_, hi_s) => match V::parse_spec(hi_s) {
                Some(hi) => Ok(self.ids_in_range(None, Some(hi), false)),
                None => Err(SearchEngineError::MismatchedQueryType),
            },
            QueryModel::OutRange(_, lo_s, hi_s) => match (V::parse_spec(lo_s), V::parse_spec(
                hi_s,
            )) {
                (Some(lo), Some(hi)) => if !V::le(lo, hi) {
                    Ok(Set::empty())
                } else {
                    Ok(self.ids_in_range(Some(lo), Some(hi), true))
                },
                _ => Err(SearchEngineError::MismatchedQueryType),
            },
            _ => Err(SearchEngineError::UnsupportedQuery),
        }
    }

    open spec fn supported_spec(&self) -> SupportedQueries {
        SUPPORTS_EXACT | SUPPORTS_INRANGE | SUPPORTS_MINIMUM | SUPPORTS_MAXIMUM | SUPPORTS_OUTRANGE
    }

    fn search(&self, query: &Query) -> (r: Result<IdSet<P>, SearchEngineError>) {
        match query {
            Query::Exact(_, value_str) => {
                match string_to_payload_type::<V>(value_str.as_str()) {
                    Ok(value) => {
                        let r = self.index.get_posting(&value);
                        proof {
                            assert(r@ == self.posting(value.model()));
                        }
                        Ok(r)
                    },
                    Err(e) => Err(e),
                }
            },
            Query::InRange(_, min_str, max_str) => {
                let min: V = match string_to_payload_type::<V>(min_str.as_str()) {
                    Ok(v) => v,
                    Err(e) => {
                        return Err(e);
                    },
                };
                let max: V = match string_to_payload_type::<V>(max_str.as_str()) {
                    Ok(v) => v,
                    Err(e) => {
                        return Err(e);
                    },
                };
                if !min.le_value(&max) {
                    return Ok(IdSet::new());
                }
                let r = self.index.collect_range(Some(&min), Some(&max), false);
                proof {
                    self.lemma_range_agree(Some(min.model()), Some(max.model()), false);
                }
                Ok(r)
            },
            Query::Minimum(_, min_str) => {
                let min: V = match string_to_payload_type::<V>(min_str.as_str()) {
                    Ok(v) => v,
                    Err(e) => {
                        return Err(e);
                    },
                };
                let r = self.index.collect_range(Some(&min), None, false);
                proof {
                    self.lemma_range_agree(Some(min.model()), None, false);
                }
                Ok(r)
            },
            Query::Maximum(_, max_str) => {
                let max: V = match string_to_payload_type::<V>(max_str.as_str()) {
                    Ok(v) => v,
                    Err(e) => {
                        return Err(e);
                    },
                };
                let r = self.index.collect_range(None, Some(&max), false);
                proof {
                    self.lemma_range_agree(None, Some(max.model()), false);
                }
                Ok(r)
            },
            Query::OutRange(_, start_str, end_str) => {
                let start: V = match string_to_payload_type::<V>(start_str.as_str()) {
                    Ok(v) => v,
                    Err(e) => {
                        return Err(e);
                    },
                };
                let end: V = match string_to_payload_type::<V>(end_str.as_str()) {
                    Ok(v) => v,
                    Err(e) => {
                        return Err(e);
                    },
                };
                if !start.le_value(&end) {
                    return Ok(IdSet::new());
                }
                let r = self.index.collect_range(Some(&start), Some(&end), true);
                proof {
                    self.lemma_range_agree(Some(start.model()), Some(end.model()), true);
                }
                Ok(r)
            },
            _ => Err(SearchEngineError::UnsupportedQuery),
        }
    }

    fn supported_queries(&self) -> (r: SupportedQueries) {
        SUPPORTS_EXACT | SUPPORTS_INRANGE | SUPPORTS_MINIMUM | SUPPORTS_MAXIMUM | SUPPORTS_OUTRANGE
    }
}

impl<P: PrimaryId, V: OrderedValue> Default for SearchIndexBTreeRange<P, V> {
    /// An empty index, as [`SearchIndexBTreeRange::new`] builds it.
    fn default() -> (r: Self)
        ensures
            r.wf(),
            r.keys() == Set::<V::Model>::empty(),
            forall|m: V::Model| #[trigger] r.posting(m) == Set::<P>::empty(),
    {
        Self::new()
    }
}

} // verus!
