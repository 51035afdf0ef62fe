use vstd::prelude::*;

use crate::error::SearchEngineError;
use crate::id_set::IdSet;
use crate::id_set::PrimaryId;
use crate::index::btree_range::SearchIndexBTreeRange;
use crate::index::hashmap::SearchIndexHashMap;
use crate::index::prefix::SearchIndexPrefixTree;
use crate::index::result_matches;
use crate::index::SearchIndex;
use crate::query::supports;
use crate::query::Query;
use crate::query::QueryModel;
use crate::query::SupportedQueries;
use crate::query::SUPPORTS_EXACT;
use crate::query::SUPPORTS_INRANGE;
use crate::query::SUPPORTS_MAXIMUM;
use crate::query::SUPPORTS_MINIMUM;
use crate::query::SUPPORTS_PREFIX;
use crate::query_lexer::lex_spec;
use crate::query_lexer::QueryLexer;
use crate::query_lexer::QueryToken;
use crate::query_lexer::TokenModel;

verus! {

broadcast use vstd::std_specs::vec::group_vec_axioms;

/// One registered index of a [`SearchEngine`]: a concrete index type
/// together with its value domain.
///
/// The engine owns its indices through this enum and dispatches every
/// query to the matching variant.
pub enum EngineIndex<P> {
    /// A hash index over text values.
    HashText(SearchIndexHashMap<P, String>),
    /// A range index over byte-sized unsigned values.
    RangeU8(SearchIndexBTreeRange<P, u8>),
    /// A range index over word-sized unsigned values.
    RangeU64(SearchIndexBTreeRange<P, u64>),
    /// A prefix-tree index over text values.
    Prefix(SearchIndexPrefixTree<P>),
}

impl<P: PrimaryId> SearchIndex<P> for EngineIndex<P> {
    open spec fn wf_index(&self) -> bool {
        match self {
            EngineIndex::HashText(x) => x.wf(),
            EngineIndex::RangeU8(x) => x.wf(),
            EngineIndex::RangeU64(x) => x.wf(),
            EngineIndex::Prefix(x) => x.wf(),
        }
    }

    /// The outcome of a search is the outcome the owned index gives.
    open spec fn search_spec(&self, q: QueryModel) -> Result<Set<P>, SearchEngineError> {
        match self {
            EngineIndex::HashText(x) => x.search_spec(q),
            EngineIndex::RangeU8(x) => x.search_spec(q),
            EngineIndex::RangeU64(x) => x.search_spec(q),
            EngineIndex::Prefix(x) => x.search_spec(q),
        }
    }

    open spec fn supported_spec(&self) -> SupportedQueries {
        match self {
            EngineIndex::HashText(x) => x.supported_spec(),
            EngineIndex::RangeU8(x) => x.supported_spec(),
            EngineIndex::RangeU64(x) => x.supported_spec(),
            EngineIndex::Prefix(x) => x.supported_spec(),
        }
    }

    fn search(&self, query: &Query) -> (r: Result<IdSet<P>, SearchEngineError>) {
        match self {
            EngineIndex::HashText(x) => x.search(query),
            EngineIndex::RangeU8(x) => x.search(query),
            EngineIndex::RangeU64(x) => x.search(query),
            EngineIndex::Prefix(x) => x.search(query),
        }
    }

    fn supported_queries(&self) -> (r: SupportedQueries) {
        match self {
            EngineIndex::HashText(x) => x.supported_queries(),
            EngineIndex::RangeU8(x) => x.supported_queries(),
            EngineIndex::RangeU64(x) => x.supported_queries(),
            EngineIndex::Prefix(x) => x.supported_queries(),
        }
    }
}


/// The number of occurrences of `c` in `s` at or after position `i`.
pub open spec fn count_char_from(s: Seq<char>, c: char, i: int) -> nat
    decreases s.len() - i,
{
    if i < 0 || i >= s.len() {
        0
    } else {
        (if s[i] == c {
            1nat
        } else {
            0nat
        }) + count_char_from(s, c, i + 1)
    }
}

/// The first position at or after `i` where `c` occurs, or the end of
/// the input.
pub open spec fn find_char_from(s: Seq<char>, c: char, i: int) -> int
    decreases s.len() - i,
{
    if i < 0 || i >= s.len() {
        s.len() as int
    } else if s[i] == c {
        i
    } else {
        find_char_from(s, c, i + 1)
    }
}

/// The leaf query that the compiler produces for one value string of
/// an attribute token, by consulting the capability mask of the
/// target index:
/// a leading `>` forces Minimum, a leading `<` Maximum, a leading `=`
/// Exact, a single infix `-` a range — each only if the index
/// supports it.  Otherwise the value is a Prefix query if the index
/// supports those, and an Exact query if not, whether or not Exact is
/// supported.
pub open spec fn compile_value_spec(attr: Seq<char>, mask: SupportedQueries, v: Seq<char>) -> QueryModel {
    if supports(mask, SUPPORTS_MINIMUM) && v.len() > 0 && v[0] == '>' {
        QueryModel::Minimum(attr, v.drop_first())
    } else if supports(mask, SUPPORTS_MAXIMUM) && v.len() > 0 && v[0] == '<' {
        QueryModel::Maximum(attr, v.drop_first())
    } else if supports(mask, SUPPORTS_EXACT) && v.len() > 0 && v[0] == '=' {
        QueryModel::Exact(attr, v.drop_first())
    } else if supports(mask, SUPPORTS_INRANGE) && count_char_from(v, '-', 0) == 1 {
        let d = find_char_from(v, '-', 0);
        QueryModel::InRange(attr, v.subrange(0, d), v.subrange(d + 1, v.len() as int))
    } else if supports(mask, SUPPORTS_PREFIX) {
        QueryModel::Prefix(attr, v)
    } else {
        QueryModel::Exact(attr, v)
    }
}

/// Builds the leaf query for one attribute value, as
/// [`compile_value_spec`] prescribes.
fn compile_value(attr: &str, mask: SupportedQueries, v: &str) -> (q: Query)
    ensures
        q@ == compile_value_spec(attr@, mask, v@),
{
    let n = v.unicode_len();
    if mask & SUPPORTS_MINIMUM != 0 && n > 0 && v.get_char(0) == '>' {
        proof {
            assert(v@.subrange(1, n as int) =~= v@.drop_first());
        }
        return Query::Minimum(attr.to_owned(), v.substring_char(1, n).to_owned());
    }
    if mask & SUPPORTS_MAXIMUM != 0 && n > 0 && v.get_char(0) == '<' {
        proof {
            assert(v@.subrange(1, n as int) =~= v@.drop_first());
        }
        return Query::Maximum(attr.to_owned(), v.substring_char(1, n).to_owned());
    }
    if mask & SUPPORTS_EXACT != 0 && n > 0 && v.get_char(0) == '=' {
        proof {
            assert(v@.subrange(1, n as int) =~= v@.drop_first());
        }
        return Query::Exact(attr.to_owned(), v.substring_char(1, n).to_owned());
    }
    if mask & SUPPORTS_INRANGE != 0 {
        let mut dash_count: usize = 0;
        let mut first_dash: usize = 0;
        let mut i: usize = 0;
        while i < n
            invariant
                n == v@.len(),
                0 <= i <= n,
                dash_count <= i,
                count_char_from(v@, '-', 0) == dash_count + count_char_from(v@, '-', i as int),
                dash_count > 0 ==> first_dash < i && v@[first_dash as int] == '-' && first_dash
                    as int == find_char_from(v@, '-', 0),
                dash_count == 0 ==> find_char_from(v@, '-', 0) == find_char_from(
                    v@,
                    '-',
                    i as int,
                ),
            decreases n - i,
        {
            if v.get_char(i) == '-' {
                if dash_count == 0 {
                    first_dash = i;
                }
                dash_count = dash_count + 1;
            }
            i += 1;
        }
        if dash_count == 1 {
            let left = v.substring_char(0, first_dash).to_owned();
            let right = v.substring_char(first_dash + 1, n).to_owned();
            return Query::InRange(attr.to_owned(), left, right);
        }
    }
    if mask & SUPPORTS_PREFIX != 0 {
        return Query::Prefix(attr.to_owned(), v.to_owned());
    }
    Query::Exact(attr.to_owned(), v.to_owned())
}

/// A SearchEngine is a wrapper around a collection of named
/// [search indices](SearchIndex) that can process complex
/// [queries](Query) involving multiple indices.
///
/// It can also create queries from strings, tailored to the
/// capabilities of the registered indices; see
/// [`query_from_str`](SearchEngine::query_from_str).
pub struct SearchEngine<P> {
    indices: Vec<(String, EngineIndex<P>)>,
}

impl<P: PrimaryId> SearchEngine<P> {
    /// Well-formedness: every registered index is well-formed and no
    /// attribute name is registered twice.
    pub closed spec fn wf(&self) -> bool {
        &&& forall|i: int|
            0 <= i < self.indices@.len() ==> (#[trigger] self.indices@[i]).1.wf_index()
        &&& forall|i: int, j: int|
            #![trigger self.indices@[i], self.indices@[j]]
            0 <= i < j < self.indices@.len() ==> self.indices@[i].0@ != self.indices@[j].0@
    }

    /// Whether an index is registered under `name`.
    pub closed spec fn has_index(&self, name: Seq<char>) -> bool {
        exists|i: int|
            0 <= i < self.indices@.len() && (#[trigger] self.indices@[i]).0@ == name
    }

    /// The index registered under `name`; meaningful when
    /// [`has_index`](SearchEngine::has_index) holds.
    pub closed spec fn index_at(&self, name: Seq<char>) -> EngineIndex<P> {
        self.indices@[choose|i: int|
            0 <= i < self.indices@.len() && (#[trigger] self.indices@[i]).0@ == name].1
    }

    /// The outcome of a leaf query addressed to attribute `name`:
    /// the owning index decides, an unknown attribute is an error.
    pub open spec fn eval_leaf(&self, name: Seq<char>, q: QueryModel) -> Result<
        Set<P>,
        SearchEngineError,
    > {
        if self.has_index(name) {
            self.index_at(name).search_spec(q)
        } else {
            Err(SearchEngineError::UnknownAttribute)
        }
    }

    /// The specified outcome of [`search`](SearchEngine::search):
    /// leaves go to their index; `Or` unites its children's results
    /// left to right; `And` intersects them and stops at the first
    /// empty intermediate result; `Exclude` subtracts each subtracted
    /// child from the base and stops when nothing is left.  The first
    /// error aborts the evaluation.
    pub open spec fn eval(&self, q: QueryModel) -> Result<Set<P>, SearchEngineError>
        decreases q, 0int,
    {
        match q {
            QueryModel::Exact(name, _) => self.eval_leaf(name, q),
            QueryModel::Prefix(name, _) => self.eval_leaf(name, q),
            QueryModel::InRange(name, _, _) => self.eval_leaf(name, q),
            QueryModel::OutRange(name, _, _) => self.eval_leaf(name, q),
            QueryModel::Minimum(name, _) => self.eval_leaf(name, q),
            QueryModel::Maximum(name, _) => self.eval_leaf(name, q),
            QueryModel::Or(qs) => self.eval_or(qs, 0, Set::empty()),
            QueryModel::And(qs) => if qs.len() == 0 {
                Ok(Set::empty())
            } else {
                match self.eval(qs[0]) {
                    Err(e) => Err(e),
                    Ok(s0) => if s0 == Set::<P>::empty() {
                        Ok(s0)
                    } else {
                        self.eval_and(qs, 1, s0)
                    },
                }
            },
            QueryModel::Exclude(base, qs) => match self.eval(*base) {
                Err(e) => Err(e),
                Ok(acc) => self.eval_exclude(qs, 0, acc),
            },
        }
    }

    /// The union accumulation behind [`eval`](SearchEngine::eval) for
    /// `Or`: children from position `k` on, united into `acc`.
    pub open spec fn eval_or(&self, qs: Seq<QueryModel>, k: int, acc: Set<P>) -> Result<
        Set<P>,
        SearchEngineError,
    >
        decreases qs, qs.len() - k,
    {
        if k < 0 || k >= qs.len() {
            Ok(acc)
        } else {
            match self.eval(qs[k]) {
                Err(e) => Err(e),
                Ok(s) => self.eval_or(qs, k + 1, acc.union(s)),
            }
        }
    }

    /// The intersection accumulation behind
    /// [`eval`](SearchEngine::eval) for `And`: children from position
    /// `k` on, intersected into the non-empty `acc`; an empty
    /// intermediate result short-circuits.
    pub open spec fn eval_and(&self, qs: Seq<QueryModel>, k: int, acc: Set<P>) -> Result<
        Set<P>,
        SearchEngineError,
    >
        decreases qs, qs.len() - k,
    {
        if k < 1 || k >= qs.len() {
            Ok(acc)
        } else {
            match self.eval(qs[k]) {
                Err(e) => Err(e),
                Ok(s) => {
                    let acc2 = acc.intersect(s);
                    if acc2 == Set::<P>::empty() {
                        Ok(acc2)
                    } else {
                        self.eval_and(qs, k + 1, acc2)
                    }
                },
            }
        }
    }

    /// The subtraction accumulation behind
    /// [`eval`](SearchEngine::eval) for `Exclude`: subtracted children
    /// from position `k` on, removed from `acc`; an empty intermediate
    /// result short-circuits.
    pub open spec fn eval_exclude(&self, qs: Seq<QueryModel>, k: int, acc: Set<P>) -> Result<
        Set<P>,
        SearchEngineError,
    >
        decreases qs, qs.len() - k,
    {
        if k < 0 || k >= qs.len() {
            Ok(acc)
        } else {
            match self.eval(qs[k]) {
                Err(e) => Err(e),
                Ok(s) => {
                    let acc2 = acc.difference(s);
                    if acc2 == Set::<P>::empty() {
                        Ok(acc2)
                    } else {
                        self.eval_exclude(qs, k + 1, acc2)
                    }
                },
            }
        }
    }

    /// Creates a new `SearchEngine` with no indices.
    pub fn new() -> (r: Self)
        ensures
            r.wf(),
            forall|name: Seq<char>| !(#[trigger] r.has_index(name)),
    {
        SearchEngine { indices: Vec::new() }
    }

    /// Adds a new index to this search engine under `name`.  If the
    /// name was already taken, the old index is silently replaced.
    pub fn add_index(&mut self, name: &str, index: EngineIndex<P>)
        requires
            old(self).wf(),
            index.wf_index(),
        ensures
            final (self).wf(),
            final (self).has_index(name@),
            final (self).index_at(name@) == index,
            forall|n: Seq<char>|
                n != name@ ==> #[trigger] final (self).has_index(n) == old(self).has_index(n),
            forall|n: Seq<char>|
                n != name@ && old(self).has_index(n) ==> #[trigger] final (self).index_at(n) == old(
                    self,
                ).index_at(n),
    {
        let owned: String = name.to_owned();
        let n = self.indices.len();
        let mut i: usize = 0;
        while i < n
            invariant
                n == self.indices@.len(),
                0 <= i <= n,
                *self == *old(self),
                self.wf(),
                index.wf_index(),
                owned@ == name@,
                forall|j: int| 0 <= j < i ==> (#[trigger] self.indices@[j]).0@ != name@,
            decreases n - i,
        {
            if self.indices[i].0.eq(&owned) {
                self.indices[i] = (owned, index);
                proof {
                    Self::lemma_registry_update(*old(self), *self, i as int, name@);
                }
                return ;
            }
            i += 1;
        }
        self.indices.push((owned, index));
        proof {
            let pre = *old(self);
            let post = *self;
            assert(post.indices@ == pre.indices@.push((owned, index)));
            assert(post.wf());
            assert(post.indices@[n as int].0@ == name@);
            assert(post.has_index(name@));
            Self::lemma_lookup_unique(post, name@, n as int);
            assert forall|nm: Seq<char>| nm != name@ implies #[trigger] post.has_index(nm)
                == pre.has_index(nm) by {
                if post.has_index(nm) {
                    let j = choose|j: int|
                        0 <= j < post.indices@.len() && (#[trigger] post.indices@[j]).0@ == nm;
                    assert(j < n);
                    assert(pre.indices@[j].0@ == nm);
                }
                if pre.has_index(nm) {
                    let j = choose|j: int|
                        0 <= j < pre.indices@.len() && (#[trigger] pre.indices@[j]).0@ == nm;
                    assert(post.indices@[j].0@ == nm);
                }
            }
            assert forall|nm: Seq<char>| nm != name@ && pre.has_index(nm) implies #[trigger] post
                .index_at(nm) == pre.index_at(nm) by {
                let j = choose|j: int|
                    0 <= j < pre.indices@.len() && (#[trigger] pre.indices@[j]).0@ == nm;
                assert(post.indices@[j].0@ == nm);
                Self::lemma_lookup_unique(post, nm, j);
                Self::lemma_lookup_unique(pre, nm, j);
            }
        }
    }

    /// In a well-formed registry the entry found under a name is the
    /// one the specification lookup denotes.
    proof fn lemma_lookup_unique(engine: Self, name: Seq<char>, i: int)
        requires
            engine.wf(),
            0 <= i < engine.indices@.len(),
            engine.indices@[i].0@ == name,
        ensures
            engine.has_index(name),
            engine.index_at(name) == engine.indices@[i].1,
    {
        let j = choose|j: int|
            0 <= j < engine.indices@.len() && (#[trigger] engine.indices@[j]).0@ == name;
        if i != j {
            assert(engine.indices@[i].0@ != engine.indices@[j].0@);
        }
    }

    /// Replacing the entry at position `i` — whose name is `name` —
    /// relates the registry to its old state as an overwrite.
    proof fn lemma_registry_update(pre: Self, post: Self, i: int, name: Seq<char>)
        requires
            pre.wf(),
            0 <= i < pre.indices@.len(),
            pre.indices@[i].0@ == name,
            post.indices@.len() == pre.indices@.len(),
            post.indices@[i].0@ == name,
            post.indices@[i].1.wf_index(),
            forall|j: int|
                0 <= j < pre.indices@.len() && j != i ==> post.indices@[j] == pre.indices@[j],
        ensures
            post.wf(),
            post.has_index(name),
            post.index_at(name) == post.indices@[i].1,
            forall|n: Seq<char>|
                n != name ==> #[trigger] post.has_index(n) == pre.has_index(n),
            forall|n: Seq<char>|
                n != name && pre.has_index(n) ==> #[trigger] post.index_at(n) == pre.index_at(n),
    {
        assert forall|a: int, b: int|
            #![trigger post.indices@[a], post.indices@[b]]
            0 <= a < b < post.indices@.len() implies post.indices@[a].0@ != post.indices@[b].0@ by {
            if a != i {
                assert(post.indices@[a] == pre.indices@[a]);
            }
            if b != i {
                assert(post.indices@[b] == pre.indices@[b]);
            }
            assert(pre.indices@[a].0@ != pre.indices@[b].0@);
        }
        assert forall|j: int|
            0 <= j < post.indices@.len() implies (#[trigger] post.indices@[j]).1.wf_index() by {
            if j != i {
                assert(post.indices@[j] == pre.indices@[j]);
            }
        }
        Self::lemma_lookup_unique(post, name, i);
        assert forall|n: Seq<char>| n != name implies #[trigger] post.has_index(n)
            == pre.has_index(n) by {
            if post.has_index(n) {
                let j = choose|j: int|
                    0 <= j < post.indices@.len() && (#[trigger] post.indices@[j]).0@ == n;
                assert(j != i);
                assert(pre.indices@[j].0@ == n);
            }
            if pre.has_index(n) {
                let j = choose|j: int|
                    0 <= j < pre.indices@.len() && (#[trigger] pre.indices@[j]).0@ == n;
                assert(j != i);
                assert(post.indices@[j].0@ == n);
            }
        }
        assert forall|n: Seq<char>| n != name && pre.has_index(n) implies #[trigger] post.index_at(
            n,
        ) == pre.index_at(n) by {
            let j = choose|j: int|
                0 <= j < pre.indices@.len() && (#[trigger] pre.indices@[j]).0@ == n;
            assert(j != i);
            assert(post.indices@[j].0@ == n);
            Self::lemma_lookup_unique(post, n, j);
            Self::lemma_lookup_unique(pre, n, j);
        }
    }

    /// Finds the index registered under `name`, if any.
    fn find_index(&self, name: &String) -> (r: Option<&EngineIndex<P>>)
        requires
            self.wf(),
        ensures
            match r {
                Some(ix) => self.has_index(name@) && *ix == self.index_at(name@)
                    && ix.wf_index(),
                None => !self.has_index(name@),
            },
    {
        let n = self.indices.len();
        let mut i: usize = 0;
        while i < n
            invariant
                n == self.indices@.len(),
                0 <= i <= n,
                self.wf(),
                forall|j: int| 0 <= j < i ==> (#[trigger] self.indices@[j]).0@ != name@,
            decreases n - i,
        {
            if self.indices[i].0.eq(name) {
                proof {
                    Self::lemma_lookup_unique(*self, name@, i as int);
                }
                return Some(&self.indices[i].1);
            }
            i += 1;
        }
        proof {
            if self.has_index(name@) {
                let j = choose|j: int|
                    0 <= j < self.indices@.len() && (#[trigger] self.indices@[j]).0@ == name@;
                assert(false);
            }
        }
        None
    }

    /// Evaluates a leaf query: delegates to the index owning the
    /// attribute, or fails with
    /// [`UnknownAttribute`](SearchEngineError::UnknownAttribute).
    fn search_leaf(&self, attr: &String, query: &Query) -> (r: Result<
        IdSet<P>,
        SearchEngineError,
    >)
        requires
            self.wf(),
            self.eval(query@) == self.eval_leaf(attr@, query@),
        ensures
            result_matches(r, self.eval(query@)),
    {
        match self.find_index(attr) {
            None => Err(SearchEngineError::UnknownAttribute),
            Some(index) => index.search(query),
        }
    }

    /// Runs a query on the search engine.
    ///
    /// The result is the set of all primary identifiers of rows that
    /// match the query; its exact contents are given by
    /// [`eval`](SearchEngine::eval).
    pub fn search(&self, query: &Query) -> (r: Result<IdSet<P>, SearchEngineError>)
        requires
            self.wf(),
        ensures
            result_matches(r, self.eval(query@)),
        decreases *query,
    {
        match query {
            Query::Exact(attr, _) => self.search_leaf(attr, query),
            Query::Prefix(attr, _) => self.search_leaf(attr, query),
            Query::InRange(attr, _, _) => self.search_leaf(attr, query),
            Query::OutRange(attr, _, _) => self.search_leaf(attr, query),
            Query::Minimum(attr, _) => self.search_leaf(attr, query),
            Query::Maximum(attr, _) => self.search_leaf(attr, query),
            Query::Or(vec) => {
                let ghost qs = (match query@ {
                    QueryModel::Or(qs) => qs,
                    _ => Seq::empty(),
                });
                let mut result_set: IdSet<P> = IdSet::new();
                let n = vec.len();
                let mut k: usize = 0;
                proof {
                    assert(self.eval(query@) == self.eval_or(qs, 0, Set::empty()));
                }
                while k < n
                    invariant
                        self.wf(),
                        *query == Query::Or(*vec),
                        n == vec@.len(),
                        0 <= k <= n,
                        qs.len() == vec@.len(),
                        forall|j: int| 0 <= j < qs.len() ==> qs[j] == #[trigger] vec@[j]@,
                        result_set.wf(),
                        self.eval(query@) == self.eval_or(qs, k as int, result_set@),
                    decreases n - k,
                {
                    let attribute_set = match self.search(&vec[k]) {
                        Ok(s) => s,
                        Err(e) => {
                            return Err(e);
                        },
                    };
                    result_set.union_with(&attribute_set);
                    k += 1;
                }
                Ok(result_set)
            },
            Query::And(vec) => {
                let ghost qs = (match query@ {
                    QueryModel::And(qs) => qs,
                    _ => Seq::empty(),
                });
                let n = vec.len();
                if n == 0 {
                    return Ok(IdSet::new());
                }
                let mut result_set = match self.search(&vec[0]) {
                    Ok(s) => s,
                    Err(e) => {
                        return Err(e);
                    },
                };
                if result_set.is_empty() {
                    return Ok(result_set);
                }
                let mut k: usize = 1;
                while k < n
                    invariant
                        self.wf(),
                        *query == Query::And(*vec),
                        n == vec@.len(),
                        1 <= k <= n,
                        qs.len() == vec@.len(),
                        forall|j: int| 0 <= j < qs.len() ==> qs[j] == #[trigger] vec@[j]@,
                        result_set.wf(),
                        !(result_set@ == Set::<P>::empty()),
                        self.eval(query@) == self.eval_and(qs, k as int, result_set@),
                    decreases n - k,
                {
                    let attribute_set = match self.search(&vec[k]) {
                        Ok(s) => s,
                        Err(e) => {
                            return Err(e);
                        },
                    };
                    result_set = result_set.intersection(&attribute_set);
                    if result_set.is_empty() {
                        proof {
                            assert(result_set@ =~= Set::<P>::empty());
                        }
                        return Ok(result_set);
                    }
                    k += 1;
                }
                Ok(result_set)
            },
            Query::Exclude(base, vec) => {
                let ghost qs = (match query@ {
                    QueryModel::Exclude(_, qs) => qs,
                    _ => Seq::empty(),
                });
                let mut result_set = match self.search(base) {
                    Ok(s) => s,
                    Err(e) => {
                        return Err(e);
                    },
                };
                let n = vec.len();
                let mut k: usize = 0;
                while k < n
                    invariant
                        self.wf(),
                        *query == Query::Exclude(*base, *vec),
                        n == vec@.len(),
                        0 <= k <= n,
                        qs.len() == vec@.len(),
                        forall|j: int| 0 <= j < qs.len() ==> qs[j] == #[trigger] vec@[j]@,
                        result_set.wf(),
                        self.eval(query@) == self.eval_exclude(qs, k as int, result_set@),
                    decreases n - k,
                {
                    let attribute_set = match self.search(&vec[k]) {
                        Ok(s) => s,
                        Err(e) => {
                            return Err(e);
                        },
                    };
                    result_set = result_set.difference(&attribute_set);
                    if result_set.is_empty() {
                        proof {
                            assert(result_set@ =~= Set::<P>::empty());
                        }
                        return Ok(result_set);
                    }
                    k += 1;
                }
                Ok(result_set)
            },
        }
    }

    /// The result of compiling a token list against this engine's
    /// registered indices, given the inclusion, exclusion and freetext
    /// lists collected so far.  Each attribute token must name a
    /// registered index; its values compile to leaves by
    /// [`compile_value_spec`].  One value yields its leaf directly,
    /// several an `Or` of them, none contributes nothing.  At the end
    /// the inclusion leaves form a top-level `And`, wrapped in an
    /// `Exclude` if there are exclusion leaves.
    pub open spec fn compile_tokens(
        &self,
        toks: Seq<TokenModel>,
        inc: Seq<QueryModel>,
        exc: Seq<QueryModel>,
        free: Seq<Seq<char>>,
    ) -> Result<(QueryModel, Seq<Seq<char>>), SearchEngineError>
        decreases toks.len(),
    {
        if toks.len() == 0 {
            let base = QueryModel::And(inc);
            if exc.len() > 0 {
                Ok((QueryModel::Exclude(Box::new(base), exc), free))
            } else {
                Ok((base, free))
            }
        } else {
            match toks[0] {
                TokenModel::Freetext(t) => self.compile_tokens(
                    toks.drop_first(),
                    inc,
                    exc,
                    free.push(t),
                ),
                TokenModel::Attribute(is_inc, name, vals) => {
                    if !self.has_index(name) {
                        Err(SearchEngineError::UnknownAttribute)
                    } else {
                        let mask = self.index_at(name).supported_spec();
                        let leaves = Seq::new(
                            vals.len(),
                            |j: int| compile_value_spec(name, mask, vals[j]),
                        );
                        if vals.len() == 0 {
                            self.compile_tokens(toks.drop_first(), inc, exc, free)
                        } else {
                            let q = if vals.len() == 1 {
                                leaves[0]
                            } else {
                                QueryModel::Or(leaves)
                            };
                            if is_inc {
                                self.compile_tokens(toks.drop_first(), inc.push(q), exc, free)
                            } else {
                                self.compile_tokens(toks.drop_first(), inc, exc.push(q), free)
                            }
                        }
                    }
                },
            }
        }
    }

    /// The result of compiling a whole query string: its token
    /// sequence compiled from empty lists.
    pub open spec fn compile_spec(&self, s: Seq<char>) -> Result<
        (QueryModel, Seq<Seq<char>>),
        SearchEngineError,
    > {
        self.compile_tokens(lex_spec(s, 0), Seq::empty(), Seq::empty(), Seq::empty())
    }

    /// Builds a [`Query`] from a string slice.
    ///
    /// The string is tokenized as whitespace-separated attribute
    /// selectors (`+name:v1,v2` to include, `-name:v1,v2` to exclude)
    /// and freetext.  Each value becomes the richest leaf the target
    /// index supports, as described at
    /// [`compile_value_spec`]; the freetext parts are returned
    /// verbatim for the caller to use.  The function fails with
    /// [`UnknownAttribute`](SearchEngineError::UnknownAttribute) if a
    /// selector names an index that is not registered.
    pub fn query_from_str<'a>(&self, query_str: &'a str) -> (r: Result<
        (Query, Vec<&'a str>),
        SearchEngineError,
    >)
        requires
            self.wf(),
        ensures
            match r {
                Ok(p) => self.compile_spec(query_str@) is Ok && p.0@ == self.compile_spec(
                    query_str@,
                ).unwrap().0 && Seq::new(p.1@.len(), |x: int| p.1@[x]@) == self.compile_spec(
                    query_str@,
                ).unwrap().1,
                Err(e) => self.compile_spec(query_str@) == Err::<
                    (QueryModel, Seq<Seq<char>>),
                    SearchEngineError,
                >(e),
            },
    {
        let ghost s = query_str@;
        let mut inclusions: Vec<Query> = Vec::new();
        let mut exclude: Vec<Query> = Vec::new();
        let mut freetexts: Vec<&'a str> = Vec::new();
        let mut lexer = QueryLexer::new(query_str);
        proof {
            assert(Seq::new(inclusions@.len(), |x: int| inclusions@[x]@) =~= Seq::<
                QueryModel,
            >::empty());
            assert(Seq::new(exclude@.len(), |x: int| exclude@[x]@) =~= Seq::<
                QueryModel,
            >::empty());
            assert(Seq::new(freetexts@.len(), |x: int| freetexts@[x]@) =~= Seq::<
                Seq<char>,
            >::empty());
        }
        let mut done = false;
        while !done
            invariant
                self.wf(),
                lexer.wf(),
                lexer.input() == s,
                s == query_str@,
                0 <= lexer.position() <= s.len(),
                done ==> lex_spec(s, lexer.position()) == Seq::<TokenModel>::empty(),
                self.compile_tokens(
                    lex_spec(s, lexer.position()),
                    Seq::new(inclusions@.len(), |x: int| inclusions@[x]@),
                    Seq::new(exclude@.len(), |x: int| exclude@[x]@),
                    Seq::new(freetexts@.len(), |x: int| freetexts@[x]@),
                ) == self.compile_spec(s),
            decreases s.len() - lexer.position() + (if done {
                0int
            } else {
                1int
            }),
        {
            let ghost pos0 = lexer.position();
            let ghost toks0 = lex_spec(s, pos0);
            let ghost inc0 = Seq::new(inclusions@.len(), |x: int| inclusions@[x]@);
            let ghost exc0 = Seq::new(exclude@.len(), |x: int| exclude@[x]@);
            let ghost free0 = Seq::new(freetexts@.len(), |x: int| freetexts@[x]@);
            match lexer.next_token() {
                None => {
                    done = true;
                },
                Some(token) => {
                    let ghost toks1 = lex_spec(s, lexer.position());
                    proof {
                        assert(toks0 == seq![token@] + toks1);
                        assert(toks0[0] == token@);
                        assert(toks0.drop_first() =~= toks1);
                    }
                    match token {
                        QueryToken::Freetext(text) => {
                            freetexts.push(text);
                            proof {
                                assert(Seq::new(freetexts@.len(), |x: int| freetexts@[x]@)
                                    =~= free0.push(text@));
                            }
                        },
                        QueryToken::Attribute(is_include, attribute, values) => {
                            let attr_owned: String = attribute.to_owned();
                            match self.find_index(&attr_owned) {
                                None => {
                                    proof {
                                        assert(self.compile_tokens(toks0, inc0, exc0, free0)
                                            == Err::<
                                            (QueryModel, Seq<Seq<char>>),
                                            SearchEngineError,
                                        >(SearchEngineError::UnknownAttribute));
                                    }
                                    return Err(SearchEngineError::UnknownAttribute);
                                },
                                Some(index) => {
                                    let sup = index.supported_queries();
                                    let ghost vals_m = Seq::new(
                                        values@.len(),
                                        |x: int| values@[x]@,
                                    );
                                    let ghost leaves = Seq::new(
                                        vals_m.len(),
                                        |j: int| compile_value_spec(attribute@, sup, vals_m[j]),
                                    );
                                    let mut qs: Vec<Query> = Vec::new();
                                    let vn = values.len();
                                    let mut j: usize = 0;
                                    while j < vn
                                        invariant
                                            vn == values@.len(),
                                            0 <= j <= vn,
                                            qs@.len() == j,
                                            leaves == Seq::new(
                                                Seq::new(
                                                    values@.len(),
                                                    |x: int| values@[x]@,
                                                ).len(),
                                                |x: int| compile_value_spec(
                                                    attribute@,
                                                    sup,
                                                    Seq::new(
                                                        values@.len(),
                                                        |y: int| values@[y]@,
                                                    )[x],
                                                ),
                                            ),
                                            forall|x: int|
                                                0 <= x < j ==> (#[trigger] qs@[x])@ == leaves[x],
                                        decreases vn - j,
                                    {
                                        let q = compile_value(attribute, sup, values[j]);
                                        qs.push(q);
                                        j += 1;
                                    }
                                    if qs.len() == 0 {
                                        proof {
                                            assert(self.compile_tokens(toks0, inc0, exc0, free0)
                                                == self.compile_tokens(toks1, inc0, exc0, free0));
                                        }
                                    } else if qs.len() == 1 {
                                        let q = match qs.pop() {
                                            Some(q) => q,
                                            None => {
                                                proof {
                                                    assert(false);
                                                }
                                                return Err(SearchEngineError::UnknownAttribute);
                                            },
                                        };
                                        proof {
                                            assert(q@ == leaves[0]);
                                        }
                                        if is_include {
                                            inclusions.push(q);
                                            proof {
                                                assert(Seq::new(
                                                    inclusions@.len(),
                                                    |x: int| inclusions@[x]@,
                                                ) =~= inc0.push(leaves[0]));
                                            }
                                        } else {
                                            exclude.push(q);
                                            proof {
                                                assert(Seq::new(
                                                    exclude@.len(),
                                                    |x: int| exclude@[x]@,
                                                ) =~= exc0.push(leaves[0]));
                                            }
                                        }
                                    } else {
                                        let ghost qs_snap = qs;
                                        let q = Query::Or(qs);
                                        proof {
                                            assert(q@ == QueryModel::Or(leaves)) by {
                                                assert(q@ matches QueryModel::Or(inner) && inner
                                                    =~= leaves) by {
                                                    assert forall|x: int|
                                                        0 <= x < qs_snap@.len() implies (
                                                        #[trigger] qs_snap@[x])@ == leaves[x] by {}
                                                }
                                            }
                                        }
                                        if is_include {
                                            inclusions.push(q);
                                            proof {
                                                assert(Seq::new(
                                                    inclusions@.len(),
                                                    |x: int| inclusions@[x]@,
                                                ) =~= inc0.push(QueryModel::Or(leaves)));
                                            }
                                        } else {
                                            exclude.push(q);
                                            proof {
                                                assert(Seq::new(
                                                    exclude@.len(),
                                                    |x: int| exclude@[x]@,
                                                ) =~= exc0.push(QueryModel::Or(leaves)));
                                            }
                                        }
                                    }
                                },
                            }
                        },
                    }
                },
            }
        }
        let ghost inc_m = Seq::new(inclusions@.len(), |x: int| inclusions@[x]@);
        let ghost exc_m = Seq::new(exclude@.len(), |x: int| exclude@[x]@);
        let ghost free_m = Seq::new(freetexts@.len(), |x: int| freetexts@[x]@);
        proof {
            assert(self.compile_tokens(Seq::empty(), inc_m, exc_m, free_m) == self.compile_spec(
                s,
            ));
        }
        let ghost include_snap = inclusions;
        let base_query = Query::And(inclusions);
        proof {
            assert(base_query@ matches QueryModel::And(inner) && inner =~= inc_m) by {
                assert forall|x: int|
                    0 <= x < include_snap@.len() implies (#[trigger] include_snap@[x])@ == inc_m[x]
                    by {}
            }
        }
        if exclude.len() > 0 {
            let ghost exclude_snap = exclude;
            let q = Query::Exclude(Box::new(base_query), exclude);
            proof {
                assert(q@ matches QueryModel::Exclude(b, inner) && *b == QueryModel::And(inc_m)
                    && inner =~= exc_m) by {
                    assert forall|x: int|
                        0 <= x < exclude_snap@.len() implies (#[trigger] exclude_snap@[x])@
                        == exc_m[x] by {}
                }
            }
            Ok((q, freetexts))
        } else {
            Ok((base_query, freetexts))
        }
    }
}

impl<P: PrimaryId> Default for SearchEngine<P> {
    /// An empty engine, as [`SearchEngine::new`] builds it.
    fn default() -> (r: Self)
        ensures
            r.wf(),
            forall|name: Seq<char>| !(#[trigger] r.has_index(name)),
    {
        Self::new()
    }
}

} // verus!
