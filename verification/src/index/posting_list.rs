use vstd::prelude::*;

use crate::id_set::IdSet;
use crate::id_set::PrimaryId;
use crate::values::AttributeValue;
use crate::values::OrderedValue;

verus! {

/// The common storage of the hash and range indices: a list of
/// attribute values, each paired with the posting of all primary
/// identifiers inserted under that value.  Values are unique up to
/// their models.
pub struct PostingList<P, V> {
    entries: Vec<(V, IdSet<P>)>,
}

/// The model of an optional borrowed value.
pub open spec fn opt_model<V: AttributeValue>(o: Option<&V>) -> Option<V::Model> {
    match o {
        Some(v) => Some(v.model()),
        None => None,
    }
}

/// Whether model `m` lies in the (possibly half-open) range given by
/// `lo` and `hi`; with `outside` set, whether it lies strictly below
/// `lo` or strictly above `hi`.
pub open spec fn range_pred<V: OrderedValue>(
    lo: Option<V::Model>,
    hi: Option<V::Model>,
    outside: bool,
    m: V::Model,
) -> bool {
    if outside {
        (match lo {
            Some(l) => V::le(m, l) && m != l,
            None => false,
        }) || (match hi {
            Some(h) => V::le(h, m) && m != h,
            None => false,
        })
    } else {
        (match lo {
            Some(l) => V::le(l, m),
            None => true,
        }) && (match hi {
            Some(h) => V::le(m, h),
            None => true,
        })
    }
}

impl<P, V: AttributeValue> PostingList<P, V> {
    /// Well-formedness: every posting is well-formed and no two
    /// entries share a value model.
    pub closed spec fn wf(&self) -> bool {
        &&& forall|i: int|
            0 <= i < self.entries@.len() ==> (#[trigger] self.entries@[i]).1.wf()
        &&& forall|i: int, j: int|
            0 <= i < j < self.entries@.len() ==> (#[trigger] self.entries@[i]).0.model() != (
            #[trigger] self.entries@[j]).0.model()
    }

    /// The set of primary identifiers posted under value model `m`;
    /// empty if nothing was inserted under `m`.
    pub closed spec fn posting(&self, m: V::Model) -> Set<P> {
        Set::new(
            |p: P|
                exists|i: int|
                    0 <= i < self.entries@.len() && (#[trigger] self.entries@[i]).0.model() == m
                        && self.entries@[i].1@.contains(p),
        )
    }

    /// The set of value models under which something was inserted.
    pub closed spec fn keys(&self) -> Set<V::Model> {
        Set::new(
            |m: V::Model|
                exists|i: int|
                    0 <= i < self.entries@.len() && (#[trigger] self.entries@[i]).0.model() == m,
        )
    }

    /// The effect of inserting identifier `id` under value model `m`:
    /// `post` has `id` added to the posting of `m` and is otherwise
    /// identical to `pre`.
    pub open spec fn insert_effect(pre: Self, post: Self, id: P, m: V::Model) -> bool {
        &&& post.wf()
        &&& post.keys() == pre.keys().insert(m)
        &&& post.posting(m) == pre.posting(m).insert(id)
        &&& forall|n: V::Model| n != m ==> #[trigger] post.posting(n) == pre.posting(n)
    }
}

impl<P: PrimaryId, V: AttributeValue> PostingList<P, V> {
    /// Creates an empty posting list.
    pub fn new() -> (r: Self)
        ensures
            r.wf(),
            r.keys() == Set::<V::Model>::empty(),
            forall|m: V::Model| #[trigger] r.posting(m) == Set::<P>::empty(),
    {
        let r = PostingList { entries: Vec::new() };
        proof {
            assert(r.keys() =~= Set::<V::Model>::empty());
            assert forall|m: V::Model| #[trigger] r.posting(m) == Set::<P>::empty() by {
                assert(r.posting(m) =~= Set::<P>::empty());
            }
        }
        r
    }

    /// Adds `id` to the posting for `value`, creating the posting if
    /// absent.
    pub fn insert(&mut self, id: P, value: V)
        requires
            old(self).wf(),
        ensures
            Self::insert_effect(*old(self), *final (self), id, value.model()),
    {
        let ghost m = value.model();
        let n = self.entries.len();
        let mut i: usize = 0;
        while i < n
            invariant
                n == self.entries@.len(),
                0 <= i <= n,
                *self == *old(self),
                self.wf(),
                m == value.model(),
                forall|j: int| 0 <= j < i ==> (#[trigger] self.entries@[j]).0.model() != m,
            decreases n - i,
        {
            if self.entries[i].0.same_value(&value) {
                proof {
                    assert(self.entries@[i as int].1.wf());
                }
                self.entries[i].1.insert(id);
                proof {
                    Self::lemma_update_entry(*old(self), *self, i as int, id, m);
                }
                return ;
            }
            i += 1;
        }
        let mut posting: IdSet<P> = IdSet::new();
        posting.insert(id);
        self.entries.push((value, posting));
        proof {
            let pre = *old(self);
            assert(self.entries@ == pre.entries@.push((value, posting)));
            assert(self.wf());
            assert(self.keys() =~= pre.keys().insert(m)) by {
                assert(self.entries@[n as int].0.model() == m);
                assert forall|x: V::Model| self.keys().contains(x) implies pre.keys().insert(
                    m,
                ).contains(x) by {
                    let j = choose|j: int|
                        0 <= j < self.entries@.len() && (#[trigger] self.entries@[j]).0.model()
                            == x;
                    if j < n {
                        assert(pre.entries@[j].0.model() == x);
                    }
                }
                assert forall|x: V::Model| pre.keys().insert(m).contains(x)
                    implies self.keys().contains(x) by {
                    if x == m {
                        assert(self.entries@[n as int].0.model() == x);
                    } else {
                        let j = choose|j: int|
                            0 <= j < pre.entries@.len() && (#[trigger] pre.entries@[j]).0.model()
                                == x;
                        assert(self.entries@[j].0.model() == x);
                    }
                }
            }
            assert(self.posting(m) =~= pre.posting(m).insert(id)) by {
                assert(self.entries@[n as int].1@.contains(id));
                assert forall|p: P| self.posting(m).contains(p) implies pre.posting(m).insert(
                    id,
                ).contains(p) by {
                    let j = choose|j: int|
                        0 <= j < self.entries@.len() && (#[trigger] self.entries@[j]).0.model()
                            == m && self.entries@[j].1@.contains(p);
                    if j < n {
                        assert(pre.entries@[j].0.model() == m && pre.entries@[j].1@.contains(p));
                    }
                }
                assert forall|p: P| pre.posting(m).contains(p) implies self.posting(m).contains(
                    p,
                ) by {
                    let j = choose|j: int|
                        0 <= j < pre.entries@.len() && (#[trigger] pre.entries@[j]).0.model() == m
                            && pre.entries@[j].1@.contains(p);
                    assert(self.entries@[j].0.model() == m && self.entries@[j].1@.contains(p));
                }
            }
            assert forall|x: V::Model| x != m implies #[trigger] self.posting(x) == pre.posting(
                x,
            ) by {
                assert forall|p: P| self.posting(x).contains(p) implies pre.posting(x).contains(
                    p,
                ) by {
                    let j = choose|j: int|
                        0 <= j < self.entries@.len() && (#[trigger] self.entries@[j]).0.model()
                            == x && self.entries@[j].1@.contains(p);
                    assert(j < n);
                    assert(pre.entries@[j].0.model() == x && pre.entries@[j].1@.contains(p));
                }
                assert forall|p: P| pre.posting(x).contains(p) implies self.posting(x).contains(
                    p,
                ) by {
                    let j = choose|j: int|
                        0 <= j < pre.entries@.len() && (#[trigger] pre.entries@[j]).0.model() == x
                            && pre.entries@[j].1@.contains(p);
                    assert(self.entries@[j].0.model() == x && self.entries@[j].1@.contains(p));
                }
                assert(self.posting(x) =~= pre.posting(x));
            }
        }
    }

    /// After updating only the posting of entry `i` by inserting `id`,
    /// the whole list relates to its old state as `insert_effect`.
    proof fn lemma_update_entry(pre: Self, post: Self, i: int, id: P, m: V::Model)
        requires
            pre.wf(),
            0 <= i < pre.entries@.len(),
            pre.entries@[i].0.model() == m,
            forall|j: int| 0 <= j < i ==> (#[trigger] pre.entries@[j]).0.model() != m,
            post.entries@.len() == pre.entries@.len(),
            post.entries@[i].0 == pre.entries@[i].0,
            post.entries@[i].1.wf(),
            post.entries@[i].1@ == pre.entries@[i].1@.insert(id),
            forall|j: int|
                0 <= j < pre.entries@.len() && j != i ==> post.entries@[j] == pre.entries@[j],
        ensures
            Self::insert_effect(pre, post, id, m),
    {
        let n = pre.entries@.len() as int;
        assert forall|j: int| 0 <= j < n implies (#[trigger] post.entries@[j]).1.wf() by {
            if j != i {
                assert(post.entries@[j] == pre.entries@[j]);
            }
        }
        assert forall|j: int, k: int| 0 <= j < k < n implies (#[trigger] post.entries@[j]).0.model()
            != (#[trigger] post.entries@[k]).0.model() by {
            assert(post.entries@[j].0 == pre.entries@[j].0);
            assert(post.entries@[k].0 == pre.entries@[k].0);
        }
        assert(post.keys() =~= pre.keys().insert(m)) by {
            assert(post.entries@[i].0.model() == m);
            assert(pre.entries@[i].0.model() == m);
            assert forall|x: V::Model| post.keys().contains(x) implies pre.keys().contains(x) by {
                let j = choose|j: int|
                    0 <= j < n && (#[trigger] post.entries@[j]).0.model() == x;
                assert(pre.entries@[j].0.model() == x);
            }
            assert forall|x: V::Model| pre.keys().contains(x) implies post.keys().contains(x) by {
                let j = choose|j: int| 0 <= j < n && (#[trigger] pre.entries@[j]).0.model() == x;
                assert(post.entries@[j].0.model() == x);
            }
        }
        assert(post.posting(m) =~= pre.posting(m).insert(id)) by {
            assert(post.entries@[i].1@.contains(id));
            assert forall|p: P| post.posting(m).contains(p) implies pre.posting(m).insert(
                id,
            ).contains(p) by {
                let j = choose|j: int|
                    0 <= j < n && (#[trigger] post.entries@[j]).0.model() == m
                        && post.entries@[j].1@.contains(p);
                if j == i {
                    assert(pre.entries@[i].1@.insert(id).contains(p));
                    if p != id {
                        assert(pre.entries@[i].1@.contains(p));
                    }
                } else {
                    assert(pre.entries@[j].0.model() == m && pre.entries@[j].1@.contains(p));
                }
            }
            assert forall|p: P| pre.posting(m).insert(id).contains(p) implies post.posting(
                m,
            ).contains(p) by {
                if p == id {
                    assert(post.entries@[i].0.model() == m && post.entries@[i].1@.contains(id));
                } else {
                    let j = choose|j: int|
                        0 <= j < n && (#[trigger] pre.entries@[j]).0.model() == m
                            && pre.entries@[j].1@.contains(p);
                    if j == i {
                        assert(post.entries@[i].1@.contains(p));
                    } else {
                        assert(post.entries@[j].0.model() == m && post.entries@[j].1@.contains(p));
                    }
                }
            }
        }
        assert forall|x: V::Model| x != m implies #[trigger] post.posting(x) == pre.posting(
            x,
        ) by {
            assert forall|p: P| post.posting(x).contains(p) implies pre.posting(x).contains(p) by {
                let j = choose|j: int|
                    0 <= j < n && (#[trigger] post.entries@[j]).0.model() == x
                        && post.entries@[j].1@.contains(p);
                assert(j != i);
                assert(pre.entries@[j].0.model() == x && pre.entries@[j].1@.contains(p));
            }
            assert forall|p: P| pre.posting(x).contains(p) implies post.posting(x).contains(p) by {
                let j = choose|j: int|
                    0 <= j < n && (#[trigger] pre.entries@[j]).0.model() == x
                        && pre.entries@[j].1@.contains(p);
                assert(j != i);
                assert(post.entries@[j].0.model() == x && post.entries@[j].1@.contains(p));
            }
            assert(post.posting(x) =~= pre.posting(x));
        }
    }

    /// The posting stored under `value`, as a fresh set; empty if no
    /// entry has this value.
    pub fn get_posting(&self, value: &V) -> (r: IdSet<P>)
        requires
            self.wf(),
        ensures
            r.wf(),
            r@ == self.posting(value.model()),
    {
        let ghost m = value.model();
        let n = self.entries.len();
        let mut i: usize = 0;
        while i < n
            invariant
                n == self.entries@.len(),
                0 <= i <= n,
                self.wf(),
                m == value.model(),
                forall|j: int| 0 <= j < i ==> (#[trigger] self.entries@[j]).0.model() != m,
            decreases n - i,
        {
            if self.entries[i].0.same_value(value) {
                let r = self.entries[i].1.duplicate();
                proof {
                    assert(self.entries@[i as int].1.wf());
                    assert(r@ =~= self.posting(m)) by {
                        assert forall|p: P| self.posting(m).contains(p) implies r@.contains(p) by {
                            let j = choose|j: int|
                                0 <= j < n && (#[trigger] self.entries@[j]).0.model() == m
                                    && self.entries@[j].1@.contains(p);
                            assert(j == i);
                        }
                    }
                }
                return r;
            }
            i += 1;
        }
        proof {
            assert(self.posting(m) =~= Set::<P>::empty());
        }
        IdSet::new()
    }
}

impl<P: PrimaryId, V: OrderedValue> PostingList<P, V> {
    /// The set of identifiers posted under any value model that
    /// satisfies the range predicate.
    pub open spec fn ids_in_range(
        &self,
        lo: Option<V::Model>,
        hi: Option<V::Model>,
        outside: bool,
    ) -> Set<P> {
        Set::new(
            |p: P|
                exists|m: V::Model|
                    #[trigger] self.posting(m).contains(p) && range_pred::<V>(lo, hi, outside, m),
        )
    }

    /// Collects the union of all postings whose value satisfies the
    /// range test given by `lo`, `hi` and `outside`.
    pub fn collect_range(&self, lo: Option<&V>, hi: Option<&V>, outside: bool) -> (r: IdSet<P>)
        requires
            self.wf(),
        ensures
            r.wf(),
            r@ == self.ids_in_range(opt_model(lo), opt_model(hi), outside),
    {
        let ghost glo = opt_model(lo);
        let ghost ghi = opt_model(hi);
        let n = self.entries.len();
        let mut r: IdSet<P> = IdSet::new();
        let mut i: usize = 0;
        while i < n
            invariant
                n == self.entries@.len(),
                0 <= i <= n,
                self.wf(),
                r.wf(),
                glo == opt_model(lo),
                ghi == opt_model(hi),
                r@ =~= Set::new(
                    |p: P|
                        exists|j: int|
                            0 <= j < i && range_pred::<V>(
                                glo,
                                ghi,
                                outside,
                                (#[trigger] self.entries@[j]).0.model(),
                            ) && self.entries@[j].1@.contains(p),
                ),
            decreases n - i,
        {
            let key = &self.entries[i].0;
            let matched: bool = if outside {
                let below = match lo {
                    Some(l) => key.le_value(l) && !key.same_value(l),
                    None => false,
                };
                let above = match hi {
                    Some(h) => h.le_value(key) && !h.same_value(key),
                    None => false,
                };
                below || above
            } else {
                let ge_lo = match lo {
                    Some(l) => l.le_value(key),
                    None => true,
                };
                let le_hi = match hi {
                    Some(h) => key.le_value(h),
                    None => true,
                };
                ge_lo && le_hi
            };
            proof {
                assert(matched == range_pred::<V>(
                    glo,
                    ghi,
                    outside,
                    self.entries@[i as int].0.model(),
                ));
            }
            let ghost prev = r@;
            if matched {
                proof {
                    assert(self.entries@[i as int].1.wf());
                }
                r.union_with(&self.entries[i].1);
            }
            proof {
                assert forall|p: P|
                    r@.contains(p) <==> exists|j: int|
                        0 <= j < i + 1 && range_pred::<V>(
                            glo,
                            ghi,
                            outside,
                            (#[trigger] self.entries@[j]).0.model(),
                        ) && self.entries@[j].1@.contains(p) by {
                    if r@.contains(p) {
                        if prev.contains(p) {
                            let j = choose|j: int|
                                0 <= j < i && range_pred::<V>(
                                    glo,
                                    ghi,
                                    outside,
                                    (#[trigger] self.entries@[j]).0.model(),
                                ) && self.entries@[j].1@.contains(p);
                            assert(0 <= j < i + 1 && range_pred::<V>(
                                glo,
                                ghi,
                                outside,
                                self.entries@[j].0.model(),
                            ) && self.entries@[j].1@.contains(p));
                        } else {
                            assert(0 <= i < i + 1 && range_pred::<V>(
                                glo,
                                ghi,
                                outside,
                                self.entries@[i as int].0.model(),
                            ) && self.entries@[i as int].1@.contains(p));
                        }
                    }
                }
            }
            i += 1;
        }
        proof {
            assert(r@ =~= self.ids_in_range(glo, ghi, outside)) by {
                assert forall|p: P| r@.contains(p) implies self.ids_in_range(
                    glo,
                    ghi,
                    outside,
                ).contains(p) by {
                    let j = choose|j: int|
                        0 <= j < n && range_pred::<V>(
                            glo,
                            ghi,
                            outside,
                            (#[trigger] self.entries@[j]).0.model(),
                        ) && self.entries@[j].1@.contains(p);
                    let m = self.entries@[j].0.model();
                    assert(self.posting(m).contains(p));
                }
                assert forall|p: P| self.ids_in_range(glo, ghi, outside).contains(p)
                    implies r@.contains(p) by {
                    let m = choose|m: V::Model|
                        #[trigger] self.posting(m).contains(p) && range_pred::<V>(
                            glo,
                            ghi,
                            outside,
                            m,
                        );
                    let j = choose|j: int|
                        0 <= j < self.entries@.len() && (#[trigger] self.entries@[j]).0.model()
                            == m && self.entries@[j].1@.contains(p);
                }
            }
        }
        r
    }
}

} // verus!
