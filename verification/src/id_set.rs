use vstd::prelude::*;

verus! {

/// What the library requires of a primary identifier: executable
/// equality that agrees with mathematical equality, and an explicit,
/// equality-preserving copy.
///
/// Rows themselves are never stored; the indices only keep sets of
/// primary identifiers, so cheap copies and reliable equality are all
/// an identifier has to offer.
pub trait PrimaryId: Sized {
    /// Executable equality test, equivalent to mathematical equality.
    fn same(&self, other: &Self) -> (r: bool)
        ensures
            r == (self == other),
    ;

    /// An explicit copy of the identifier.
    fn duplicate(&self) -> (r: Self)
        ensures
            r == *self,
    ;
}

impl PrimaryId for u8 {
    fn same(&self, other: &Self) -> (r: bool) {
        *self == *other
    }

    fn duplicate(&self) -> (r: Self) {
        *self
    }
}

impl PrimaryId for u16 {
    fn same(&self, other: &Self) -> (r: bool) {
        *self == *other
    }

    fn duplicate(&self) -> (r: Self) {
        *self
    }
}

impl PrimaryId for u32 {
    fn same(&self, other: &Self) -> (r: bool) {
        *self == *other
    }

    fn duplicate(&self) -> (r: Self) {
        *self
    }
}

impl PrimaryId for u64 {
    fn same(&self, other: &Self) -> (r: bool) {
        *self == *other
    }

    fn duplicate(&self) -> (r: Self) {
        *self
    }
}

impl PrimaryId for usize {
    fn same(&self, other: &Self) -> (r: bool) {
        *self == *other
    }

    fn duplicate(&self) -> (r: Self) {
        *self
    }
}

impl PrimaryId for i32 {
    fn same(&self, other: &Self) -> (r: bool) {
        *self == *other
    }

    fn duplicate(&self) -> (r: Self) {
        *self
    }
}

impl PrimaryId for i64 {
    fn same(&self, other: &Self) -> (r: bool) {
        *self == *other
    }

    fn duplicate(&self) -> (r: Self) {
        *self
    }
}

/// A finite set of primary identifiers.
///
/// This is the result type of every search operation and the posting
/// type inside every index: one posting holds the identifiers of all
/// rows that share an attribute value.  Its view is the mathematical
/// set of its elements; the order of iteration is unspecified.
#[derive(Debug)]
pub struct IdSet<P> {
    ids: Vec<P>,
}

impl<P> View for IdSet<P> {
    type V = Set<P>;

    closed spec fn view(&self) -> Set<P> {
        self.ids@.to_set()
    }
}

impl<P> IdSet<P> {
    /// Well-formedness: no identifier is stored twice.  Every
    /// constructor establishes this and every method preserves it.
    pub closed spec fn wf(&self) -> bool {
        self.ids@.no_duplicates()
    }

    /// The view of an `IdSet` is always a finite set.
    pub broadcast proof fn lemma_view_finite(s: &IdSet<P>)
        ensures
            #[trigger] s@.finite(),
    {
        broadcast use vstd::seq_lib::seq_to_set_is_finite;

    }
}

/// The first `i + 1` elements of a sequence, as a set, are the first
/// `i` elements plus the element at position `i`.
proof fn lemma_take_step<A>(s: Seq<A>, i: int)
    requires
        0 <= i < s.len(),
    ensures
        s.subrange(0, i + 1).to_set() =~= s.subrange(0, i).to_set().insert(s[i]),
{
    assert(s.subrange(0, i + 1) =~= s.subrange(0, i).push(s[i]));
    s.subrange(0, i).lemma_push_to_set_commute(s[i]);
}

impl<P: PrimaryId> IdSet<P> {
    /// Creates an empty set.
    pub fn new() -> (r: Self)
        ensures
            r@ == Set::<P>::empty(),
            r.wf(),
    {
        let r = IdSet { ids: Vec::new() };
        proof {
            assert(r@ =~= Set::<P>::empty());
        }
        r
    }

    /// The number of identifiers in the set.
    pub fn len(&self) -> (r: usize)
        requires
            self.wf(),
        ensures
            r == self@.len(),
    {
        proof {
            self.ids@.unique_seq_to_set();
        }
        self.ids.len()
    }

    /// Whether the set is empty.
    pub fn is_empty(&self) -> (r: bool)
        ensures
            r == (self@ =~= Set::<P>::empty()),
    {
        let r = self.ids.len() == 0;
        proof {
            if self.ids@.len() == 0 {
                assert(self@ =~= Set::<P>::empty());
            } else {
                assert(self@.contains(self.ids@[0]));
            }
        }
        r
    }

    /// Whether `id` is an element of the set.
    pub fn contains(&self, id: &P) -> (r: bool)
        ensures
            r == self@.contains(*id),
    {
        let n = self.ids.len();
        let mut i: usize = 0;
        while i < n
            invariant
                n == self.ids.len(),
                0 <= i <= n,
                forall|j: int| 0 <= j < i ==> self.ids@[j] != *id,
            decreases n - i,
        {
            if self.ids[i].same(id) {
                proof {
                    assert(self.ids@[i as int] == *id);
                }
                return true;
            }
            i += 1;
        }
        proof {
            assert(!self.ids@.contains(*id));
        }
        false
    }

    /// Adds `id` to the set; adding an element twice has no further effect.
    pub fn insert(&mut self, id: P)
        requires
            old(self).wf(),
        ensures
            final (self)@ == old(self)@.insert(id),
            final (self).wf(),
    {
        if !self.contains(&id) {
            proof {
                assert(!self.ids@.contains(id));
                self.ids@.lemma_push_to_set_commute(id);
            }
            self.ids.push(id);
        } else {
            proof {
                assert(self@ =~= old(self)@.insert(id));
            }
        }
    }

    /// An element-preserving copy of the set.
    pub fn duplicate(&self) -> (r: Self)
        ensures
            r@ == self@,
            self.wf() ==> r.wf(),
    {
        let n = self.ids.len();
        let mut ids: Vec<P> = Vec::new();
        let mut i: usize = 0;
        while i < n
            invariant
                n == self.ids.len(),
                0 <= i <= n,
                ids@ =~= self.ids@.subrange(0, i as int),
            decreases n - i,
        {
            ids.push(self.ids[i].duplicate());
            i += 1;
        }
        proof {
            assert(ids@ =~= self.ids@);
        }
        IdSet { ids }
    }

    /// Adds every element of `other` to the set.
    pub fn union_with(&mut self, other: &IdSet<P>)
        requires
            old(self).wf(),
        ensures
            final (self)@ == old(self)@.union(other@),
            final (self).wf(),
    {
        let n = other.ids.len();
        let mut i: usize = 0;
        while i < n
            invariant
                n == other.ids.len(),
                0 <= i <= n,
                self.wf(),
                self@ =~= old(self)@.union(other.ids@.subrange(0, i as int).to_set()),
            decreases n - i,
        {
            self.insert(other.ids[i].duplicate());
            proof {
                lemma_take_step(other.ids@, i as int);
                assert(self@ =~= old(self)@.union(other.ids@.subrange(0, i + 1).to_set()));
            }
            i += 1;
        }
        proof {
            assert(other.ids@.subrange(0, n as int) =~= other.ids@);
            assert(self@ =~= old(self)@.union(other@));
        }
    }

    /// The set of elements present in both `self` and `other`.
    pub fn intersection(&self, other: &IdSet<P>) -> (r: Self)
        ensures
            r@ == self@.intersect(other@),
            r.wf(),
    {
        let n = self.ids.len();
        let mut r: IdSet<P> = IdSet::new();
        let mut i: usize = 0;
        while i < n
            invariant
                n == self.ids.len(),
                0 <= i <= n,
                r.wf(),
                r@ =~= self.ids@.subrange(0, i as int).to_set().intersect(other@),
            decreases n - i,
        {
            proof {
                lemma_take_step(self.ids@, i as int);
            }
            if other.contains(&self.ids[i]) {
                r.insert(self.ids[i].duplicate());
            }
            proof {
                assert(r@ =~= self.ids@.subrange(0, i + 1).to_set().intersect(other@));
            }
            i += 1;
        }
        proof {
            assert(self.ids@.subrange(0, n as int) =~= self.ids@);
            assert(r@ =~= self@.intersect(other@));
        }
        r
    }

    /// The set of elements of `self` that are not in `other`.
    pub fn difference(&self, other: &IdSet<P>) -> (r: Self)
        ensures
            r@ == self@.difference(other@),
            r.wf(),
    {
        let n = self.ids.len();
        let mut r: IdSet<P> = IdSet::new();
        let mut i: usize = 0;
        while i < n
            invariant
                n == self.ids.len(),
                0 <= i <= n,
                r.wf(),
                r@ =~= self.ids@.subrange(0, i as int).to_set().difference(other@),
            decreases n - i,
        {
            proof {
                lemma_take_step(self.ids@, i as int);
            }
            if !other.contains(&self.ids[i]) {
                r.insert(self.ids[i].duplicate());
            }
            proof {
                assert(r@ =~= self.ids@.subrange(0, i + 1).to_set().difference(other@));
            }
            i += 1;
        }
        proof {
            assert(self.ids@.subrange(0, n as int) =~= self.ids@);
            assert(r@ =~= self@.difference(other@));
        }
        r
    }

    /// Whether `self` and `other` hold exactly the same elements.
    pub fn set_eq(&self, other: &IdSet<P>) -> (r: bool)
        ensures
            r == (self@ =~= other@),
    {
        let n = self.ids.len();
        let mut i: usize = 0;
        while i < n
            invariant
                n == self.ids.len(),
                0 <= i <= n,
                forall|j: int| 0 <= j < i ==> other@.contains(#[trigger] self.ids@[j]),
            decreases n - i,
        {
            if !other.contains(&self.ids[i]) {
                proof {
                    assert(self@.contains(self.ids@[i as int]));
                }
                return false;
            }
            i += 1;
        }
        let m = other.ids.len();
        let mut k: usize = 0;
        while k < m
            invariant
                m == other.ids.len(),
                0 <= k <= m,
                forall|j: int|
                    0 <= j < self.ids@.len() ==> other@.contains(#[trigger] self.ids@[j]),
                forall|j: int| 0 <= j < k ==> self@.contains(#[trigger] other.ids@[j]),
            decreases m - k,
        {
            if !self.contains(&other.ids[k]) {
                proof {
                    assert(other@.contains(other.ids@[k as int]));
                }
                return false;
            }
            k += 1;
        }
        proof {
            assert forall|p: P| self@.contains(p) implies other@.contains(p) by {
                let j = choose|j: int| 0 <= j < self.ids@.len() && self.ids@[j] == p;
                assert(other@.contains(self.ids@[j]));
            }
            assert forall|p: P| other@.contains(p) implies self@.contains(p) by {
                let j = choose|j: int| 0 <= j < other.ids@.len() && other.ids@[j] == p;
                assert(self@.contains(other.ids@[j]));
            }
        }
        true
    }
}

} // verus!
