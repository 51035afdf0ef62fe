use vstd::prelude::*;

use crate::engine::SearchEngine;
use crate::error::SearchEngineError;
use crate::id_set::PrimaryId;
use crate::query::QueryModel;

verus! {

/// The algebraic laws of the engine's combinators, stated over the
/// engine's evaluation semantics [`eval`](SearchEngine::eval), which
/// the executable [`search`](SearchEngine::search) realizes exactly.

/// An empty `Or` evaluates to the empty set.
pub proof fn lemma_or_empty<P: PrimaryId>(engine: SearchEngine<P>)
    ensures
        engine.eval(QueryModel::Or(Seq::empty())) == Ok::<Set<P>, SearchEngineError>(
            Set::empty(),
        ),
{
    let qs = Seq::<QueryModel>::empty();
    assert(engine.eval(QueryModel::Or(qs)) == engine.eval_or(qs, 0, Set::<P>::empty()));
    assert(engine.eval_or(qs, 0, Set::<P>::empty()) == Ok::<Set<P>, SearchEngineError>(
        Set::empty(),
    ));
}

/// An empty `And` evaluates to the empty set.
pub proof fn lemma_and_empty<P: PrimaryId>(engine: SearchEngine<P>)
    ensures
        engine.eval(QueryModel::And(Seq::empty())) == Ok::<Set<P>, SearchEngineError>(
            Set::empty(),
        ),
{
    let qs = Seq::<QueryModel>::empty();
    assert(engine.eval(QueryModel::And(qs)) == Ok::<Set<P>, SearchEngineError>(Set::empty()));
}

/// An `Or` of a single query evaluates exactly as the query itself,
/// errors included.
pub proof fn lemma_or_single<P: PrimaryId>(engine: SearchEngine<P>, q: QueryModel)
    ensures
        engine.eval(QueryModel::Or(seq![q])) == engine.eval(q),
{
    let qs = seq![q];
    assert(qs[0] == q);
    assert(engine.eval(QueryModel::Or(qs)) == engine.eval_or(qs, 0, Set::<P>::empty()));
    match engine.eval(q) {
        Err(e) => {
            assert(engine.eval_or(qs, 0, Set::<P>::empty()) == Err::<
                Set<P>,
                SearchEngineError,
            >(e));
        },
        Ok(s) => {
            assert(engine.eval_or(qs, 0, Set::<P>::empty()) == engine.eval_or(
                qs,
                1,
                Set::empty().union(s),
            ));
            assert(engine.eval_or(qs, 1, Set::empty().union(s)) == Ok::<
                Set<P>,
                SearchEngineError,
            >(Set::empty().union(s)));
            assert(Set::empty().union(s) =~= s);
        },
    }
}

/// An `And` of a single query evaluates exactly as the query itself,
/// errors included.
pub proof fn lemma_and_single<P: PrimaryId>(engine: SearchEngine<P>, q: QueryModel)
    ensures
        engine.eval(QueryModel::And(seq![q])) == engine.eval(q),
{
    let qs = seq![q];
    assert(qs[0] == q);
    assert(qs.len() == 1);
    match engine.eval(q) {
        Err(e) => {
            assert(engine.eval(QueryModel::And(qs)) == Err::<Set<P>, SearchEngineError>(e));
        },
        Ok(s) => {
            if s == Set::<P>::empty() {
                assert(engine.eval(QueryModel::And(qs)) == Ok::<Set<P>, SearchEngineError>(s));
            } else {
                assert(engine.eval_and(qs, 1, s) == Ok::<Set<P>, SearchEngineError>(s));
                assert(engine.eval(QueryModel::And(qs)) == Ok::<Set<P>, SearchEngineError>(s));
            }
        },
    }
}

/// Union accumulation: when every remaining child evaluates to a set,
/// the accumulated result is the union of the accumulator with all of
/// them.
proof fn lemma_or_accum<P: PrimaryId>(
    engine: SearchEngine<P>,
    qs: Seq<QueryModel>,
    k: int,
    acc: Set<P>,
)
    requires
        0 <= k <= qs.len(),
        forall|j: int| k <= j < qs.len() ==> (#[trigger] engine.eval(qs[j])) is Ok,
    ensures
        engine.eval_or(qs, k, acc) is Ok,
        forall|p: P|
            #[trigger] engine.eval_or(qs, k, acc).unwrap().contains(p) <==> (acc.contains(p)
                || exists|j: int| k <= j < qs.len() && (#[trigger] engine.eval(qs[j])).unwrap().contains(p)),
    decreases qs.len() - k,
{
    if k < qs.len() {
        let s = engine.eval(qs[k]).unwrap();
        lemma_or_accum(engine, qs, k + 1, acc.union(s));
        assert forall|p: P| #[trigger] engine.eval_or(qs, k, acc).unwrap().contains(p) implies (
        acc.contains(p) || exists|j: int|
            k <= j < qs.len() && (#[trigger] engine.eval(qs[j])).unwrap().contains(p)) by {
            if !acc.contains(p) {
                if acc.union(s).contains(p) {
                    assert(engine.eval(qs[k]).unwrap().contains(p));
                } else {
                    let j = choose|j: int|
                        k + 1 <= j < qs.len() && (#[trigger] engine.eval(
                            qs[j],
                        )).unwrap().contains(p);
                    assert(engine.eval(qs[j]).unwrap().contains(p));
                }
            }
        }
        assert forall|p: P|
            (acc.contains(p) || exists|j: int|
                k <= j < qs.len() && (#[trigger] engine.eval(qs[j])).unwrap().contains(
                    p,
                )) implies #[trigger] engine.eval_or(qs, k, acc).unwrap().contains(p) by {
            if acc.contains(p) {
                assert(acc.union(s).contains(p));
            } else {
                let j = choose|j: int|
                    k <= j < qs.len() && (#[trigger] engine.eval(qs[j])).unwrap().contains(p);
                if j == k {
                    assert(acc.union(s).contains(p));
                } else {
                    assert(engine.eval(qs[j]).unwrap().contains(p));
                }
            }
        }
    }
}

/// `Or` is union: when every child evaluates to a set, the `Or` of
/// them evaluates to the union of those sets.
pub proof fn lemma_or_union<P: PrimaryId>(engine: SearchEngine<P>, qs: Seq<QueryModel>)
    requires
        forall|j: int| 0 <= j < qs.len() ==> (#[trigger] engine.eval(qs[j])) is Ok,
    ensures
        engine.eval(QueryModel::Or(qs)) is Ok,
        forall|p: P|
            #[trigger] engine.eval(QueryModel::Or(qs)).unwrap().contains(p) <==> exists|j: int|
                0 <= j < qs.len() && (#[trigger] engine.eval(qs[j])).unwrap().contains(p),
{
    lemma_or_accum(engine, qs, 0, Set::empty());
}

/// Intersection accumulation: when every remaining child evaluates to
/// a set, the accumulated result — short-circuit or not — is the
/// intersection of the accumulator with all of them.
proof fn lemma_and_accum<P: PrimaryId>(
    engine: SearchEngine<P>,
    qs: Seq<QueryModel>,
    k: int,
    acc: Set<P>,
)
    requires
        1 <= k <= qs.len(),
        forall|j: int| k <= j < qs.len() ==> (#[trigger] engine.eval(qs[j])) is Ok,
    ensures
        engine.eval_and(qs, k, acc) is Ok,
        forall|p: P|
            #[trigger] engine.eval_and(qs, k, acc).unwrap().contains(p) <==> (acc.contains(p)
                && forall|j: int|
                k <= j < qs.len() ==> (#[trigger] engine.eval(qs[j])).unwrap().contains(p)),
    decreases qs.len() - k,
{
    if k < qs.len() {
        let s = engine.eval(qs[k]).unwrap();
        let acc2 = acc.intersect(s);
        if acc2 == Set::<P>::empty() {
            assert forall|p: P|
                #[trigger] engine.eval_and(qs, k, acc).unwrap().contains(p) <==> (acc.contains(p)
                    && forall|j: int|
                    k <= j < qs.len() ==> (#[trigger] engine.eval(qs[j])).unwrap().contains(
                        p,
                    )) by {
                assert(!engine.eval_and(qs, k, acc).unwrap().contains(p));
                if acc.contains(p) && forall|j: int|
                    k <= j < qs.len() ==> (#[trigger] engine.eval(qs[j])).unwrap().contains(p) {
                    assert(engine.eval(qs[k]).unwrap().contains(p));
                    assert(acc2.contains(p));
                }
            }
        } else {
            lemma_and_accum(engine, qs, k + 1, acc2);
            assert forall|p: P|
                #[trigger] engine.eval_and(qs, k, acc).unwrap().contains(p) <==> (acc.contains(p)
                    && forall|j: int|
                    k <= j < qs.len() ==> (#[trigger] engine.eval(qs[j])).unwrap().contains(
                        p,
                    )) by {
                if engine.eval_and(qs, k, acc).unwrap().contains(p) {
                    assert(acc2.contains(p));
                    assert(engine.eval(qs[k]).unwrap().contains(p));
                    assert forall|j: int|
                        k <= j < qs.len() implies (#[trigger] engine.eval(
                        qs[j],
                    )).unwrap().contains(p) by {
                        if j > k {
                            assert(engine.eval(qs[j]).unwrap().contains(p));
                        }
                    }
                }
                if acc.contains(p) && forall|j: int|
                    k <= j < qs.len() ==> (#[trigger] engine.eval(qs[j])).unwrap().contains(p) {
                    assert(engine.eval(qs[k]).unwrap().contains(p));
                    assert(acc2.contains(p));
                }
            }
        }
    }
}

/// `And` is intersection: when every child of a non-empty `And`
/// evaluates to a set, the `And` evaluates — short-circuit included —
/// to the intersection of those sets.
pub proof fn lemma_and_intersection<P: PrimaryId>(engine: SearchEngine<P>, qs: Seq<QueryModel>)
    requires
        qs.len() > 0,
        forall|j: int| 0 <= j < qs.len() ==> (#[trigger] engine.eval(qs[j])) is Ok,
    ensures
        engine.eval(QueryModel::And(qs)) is Ok,
        forall|p: P|
            #[trigger] engine.eval(QueryModel::And(qs)).unwrap().contains(p) <==> forall|j: int|
                0 <= j < qs.len() ==> (#[trigger] engine.eval(qs[j])).unwrap().contains(p),
{
    let s0 = engine.eval(qs[0]).unwrap();
    if s0 == Set::<P>::empty() {
        assert forall|p: P|
            #[trigger] engine.eval(QueryModel::And(qs)).unwrap().contains(p) <==> forall|j: int|
                0 <= j < qs.len() ==> (#[trigger] engine.eval(qs[j])).unwrap().contains(p) by {
            assert(!engine.eval(QueryModel::And(qs)).unwrap().contains(p));
            if forall|j: int|
                0 <= j < qs.len() ==> (#[trigger] engine.eval(qs[j])).unwrap().contains(p) {
                assert(engine.eval(qs[0]).unwrap().contains(p));
            }
        }
    } else {
        lemma_and_accum(engine, qs, 1, s0);
        assert forall|p: P|
            #[trigger] engine.eval(QueryModel::And(qs)).unwrap().contains(p) <==> forall|j: int|
                0 <= j < qs.len() ==> (#[trigger] engine.eval(qs[j])).unwrap().contains(p) by {
            if engine.eval(QueryModel::And(qs)).unwrap().contains(p) {
                assert(s0.contains(p));
                assert forall|j: int|
                    0 <= j < qs.len() implies (#[trigger] engine.eval(qs[j])).unwrap().contains(
                    p,
                ) by {
                    if j == 0 {
                        assert(engine.eval(qs[0]).unwrap().contains(p));
                    } else {
                        assert(engine.eval(qs[j]).unwrap().contains(p));
                    }
                }
            }
            if forall|j: int|
                0 <= j < qs.len() ==> (#[trigger] engine.eval(qs[j])).unwrap().contains(p) {
                assert(engine.eval(qs[0]).unwrap().contains(p));
            }
        }
    }
}

/// Difference accumulation: when every remaining subtracted child
/// evaluates to a set, the accumulated result — short-circuit or not —
/// is the accumulator minus all of them.
proof fn lemma_exclude_accum<P: PrimaryId>(
    engine: SearchEngine<P>,
    qs: Seq<QueryModel>,
    k: int,
    acc: Set<P>,
)
    requires
        0 <= k <= qs.len(),
        forall|j: int| k <= j < qs.len() ==> (#[trigger] engine.eval(qs[j])) is Ok,
    ensures
        engine.eval_exclude(qs, k, acc) is Ok,
        forall|p: P|
            #[trigger] engine.eval_exclude(qs, k, acc).unwrap().contains(p) <==> (acc.contains(p)
                && forall|j: int|
                k <= j < qs.len() ==> !(#[trigger] engine.eval(qs[j])).unwrap().contains(p)),
    decreases qs.len() - k,
{
    if k < qs.len() {
        let s = engine.eval(qs[k]).unwrap();
        let acc2 = acc.difference(s);
        if acc2 == Set::<P>::empty() {
            assert forall|p: P|
                #[trigger] engine.eval_exclude(qs, k, acc).unwrap().contains(p) <==> (acc.contains(
                    p,
                ) && forall|j: int|
                    k <= j < qs.len() ==> !(#[trigger] engine.eval(qs[j])).unwrap().contains(
                        p,
                    )) by {
                assert(!engine.eval_exclude(qs, k, acc).unwrap().contains(p));
                if acc.contains(p) && forall|j: int|
                    k <= j < qs.len() ==> !(#[trigger] engine.eval(qs[j])).unwrap().contains(p) {
                    assert(!engine.eval(qs[k]).unwrap().contains(p));
                    assert(acc2.contains(p));
                }
            }
        } else {
            lemma_exclude_accum(engine, qs, k + 1, acc2);
            assert forall|p: P|
                #[trigger] engine.eval_exclude(qs, k, acc).unwrap().contains(p) <==> (acc.contains(
                    p,
                ) && forall|j: int|
                    k <= j < qs.len() ==> !(#[trigger] engine.eval(qs[j])).unwrap().contains(
                        p,
                    )) by {
                if engine.eval_exclude(qs, k, acc).unwrap().contains(p) {
                    assert(acc2.contains(p));
                    assert(!engine.eval(qs[k]).unwrap().contains(p));
                    assert forall|j: int|
                        k <= j < qs.len() implies !(#[trigger] engine.eval(
                        qs[j],
                    )).unwrap().contains(p) by {
                        if j > k {
                            assert(!engine.eval(qs[j]).unwrap().contains(p));
                        }
                    }
                }
                if acc.contains(p) && forall|j: int|
                    k <= j < qs.len() ==> !(#[trigger] engine.eval(qs[j])).unwrap().contains(p) {
                    assert(!engine.eval(qs[k]).unwrap().contains(p));
                    assert(acc2.contains(p));
                }
            }
        }
    }
}

/// `Exclude` is difference: when the base and every subtracted child
/// evaluate to sets, the `Exclude` evaluates — short-circuit included
/// — to the base's set minus the union of the subtracted sets.
pub proof fn lemma_exclude_difference<P: PrimaryId>(
    engine: SearchEngine<P>,
    base: QueryModel,
    qs: Seq<QueryModel>,
)
    requires
        engine.eval(base) is Ok,
        forall|j: int| 0 <= j < qs.len() ==> (#[trigger] engine.eval(qs[j])) is Ok,
    ensures
        engine.eval(QueryModel::Exclude(Box::new(base), qs)) is Ok,
        forall|p: P|
            #[trigger] engine.eval(QueryModel::Exclude(Box::new(base), qs)).unwrap().contains(p)
                <==> (engine.eval(base).unwrap().contains(p) && forall|j: int|
                0 <= j < qs.len() ==> !(#[trigger] engine.eval(qs[j])).unwrap().contains(p)),
{
    lemma_exclude_accum(engine, qs, 0, engine.eval(base).unwrap());
}

/// What it means for an identifier to be justified by a query: at a
/// leaf, the owning index vouches for it — by the index's search
/// specification, at least one value inserted for the identifier
/// satisfies the leaf predicate — and the combinators require it of
/// their children in the expected way.
pub open spec fn justified<P: PrimaryId>(engine: SearchEngine<P>, q: QueryModel, p: P) -> bool
    decreases q, 0int,
{
    match q {
        QueryModel::Or(qs) => exists|j: int|
            0 <= j < qs.len() && justified(engine, #[trigger] qs[j], p),
        QueryModel::And(qs) => qs.len() > 0 && forall|j: int|
            0 <= j < qs.len() ==> justified(engine, #[trigger] qs[j], p),
        QueryModel::Exclude(base, qs) => justified(engine, *base, p) && forall|j: int|
            0 <= j < qs.len() ==> (#[trigger] engine.eval(qs[j])) is Ok && !engine.eval(
                qs[j],
            ).unwrap().contains(p),
        _ => engine.eval(q) is Ok && engine.eval(q).unwrap().contains(p),
    }
}

/// Union accumulation, soundness direction: an identifier in the
/// accumulated result was in the accumulator or is justified by one
/// of the remaining children.
proof fn lemma_sound_or<P: PrimaryId>(
    engine: SearchEngine<P>,
    qs: Seq<QueryModel>,
    k: int,
    acc: Set<P>,
    p: P,
)
    requires
        0 <= k <= qs.len(),
        engine.eval_or(qs, k, acc) is Ok,
        engine.eval_or(qs, k, acc).unwrap().contains(p),
    ensures
        acc.contains(p) || exists|j: int|
            k <= j < qs.len() && justified(engine, #[trigger] qs[j], p),
    decreases qs, qs.len() - k, 0int,
{
    if k < qs.len() {
        let s = engine.eval(qs[k]).unwrap();
        lemma_sound_or(engine, qs, k + 1, acc.union(s), p);
        if !acc.contains(p) {
            if acc.union(s).contains(p) {
                lemma_search_sound(engine, qs[k], p);
                assert(justified(engine, qs[k], p));
            } else {
                let j = choose|j: int|
                    k + 1 <= j < qs.len() && justified(engine, #[trigger] qs[j], p);
                assert(justified(engine, qs[j], p));
            }
        }
    }
}

/// Intersection accumulation, soundness direction: an identifier in
/// the accumulated result was in the accumulator and is justified by
/// every remaining child.
proof fn lemma_sound_and<P: PrimaryId>(
    engine: SearchEngine<P>,
    qs: Seq<QueryModel>,
    k: int,
    acc: Set<P>,
    p: P,
)
    requires
        1 <= k <= qs.len(),
        engine.eval_and(qs, k, acc) is Ok,
        engine.eval_and(qs, k, acc).unwrap().contains(p),
    ensures
        acc.contains(p),
        forall|j: int| k <= j < qs.len() ==> justified(engine, #[trigger] qs[j], p),
    decreases qs, qs.len() - k, 0int,
{
    if k < qs.len() {
        let s = engine.eval(qs[k]).unwrap();
        let acc2 = acc.intersect(s);
        if acc2 == Set::<P>::empty() {
        } else {
            lemma_sound_and(engine, qs, k + 1, acc2, p);
            lemma_search_sound(engine, qs[k], p);
            assert forall|j: int| k <= j < qs.len() implies justified(
                engine,
                #[trigger] qs[j],
                p,
            ) by {
                if j > k {
                    assert(justified(engine, qs[j], p));
                }
            }
        }
    }
}

/// Difference accumulation, soundness direction: an identifier in the
/// accumulated result was in the accumulator and in no remaining
/// subtracted child's result.
proof fn lemma_sound_exclude<P: PrimaryId>(
    engine: SearchEngine<P>,
    qs: Seq<QueryModel>,
    k: int,
    acc: Set<P>,
    p: P,
)
    requires
        0 <= k <= qs.len(),
        engine.eval_exclude(qs, k, acc) is Ok,
        engine.eval_exclude(qs, k, acc).unwrap().contains(p),
    ensures
        acc.contains(p),
        forall|j: int|
            k <= j < qs.len() ==> (#[trigger] engine.eval(qs[j])) is Ok && !engine.eval(
                qs[j],
            ).unwrap().contains(p),
    decreases qs, qs.len() - k, 0int,
{
    if k < qs.len() {
        let s = engine.eval(qs[k]).unwrap();
        let acc2 = acc.difference(s);
        if acc2 == Set::<P>::empty() {
        } else {
            lemma_sound_exclude(engine, qs, k + 1, acc2, p);
            assert forall|j: int| k <= j < qs.len() implies (#[trigger] engine.eval(
                qs[j],
            )) is Ok && !engine.eval(qs[j]).unwrap().contains(p) by {
                if j > k {
                    assert(engine.eval(qs[j]) is Ok && !engine.eval(qs[j]).unwrap().contains(p));
                }
            }
        }
    }
}

/// Soundness of the evaluator: every identifier in a successful
/// search result is justified by the query — at each leaf the owning
/// index vouches for one of the identifier's inserted values, and the
/// combinators hold of their children in the way their semantics
/// require.
pub proof fn lemma_search_sound<P: PrimaryId>(engine: SearchEngine<P>, q: QueryModel, p: P)
    requires
        engine.eval(q) is Ok,
        engine.eval(q).unwrap().contains(p),
    ensures
        justified(engine, q, p),
    decreases q, 0int, 1int,
{
    match q {
        QueryModel::Or(qs) => {
            lemma_sound_or(engine, qs, 0, Set::empty(), p);
        },
        QueryModel::And(qs) => {
            let s0 = engine.eval(qs[0]).unwrap();
            if s0 == Set::<P>::empty() {
            } else {
                lemma_sound_and(engine, qs, 1, s0, p);
                lemma_search_sound(engine, qs[0], p);
                assert forall|j: int| 0 <= j < qs.len() implies justified(
                    engine,
                    #[trigger] qs[j],
                    p,
                ) by {
                    if j > 0 {
                        assert(justified(engine, qs[j], p));
                    }
                }
            }
        },
        QueryModel::Exclude(base, qs) => {
            let acc = engine.eval(*base).unwrap();
            lemma_sound_exclude(engine, qs, 0, acc, p);
            lemma_search_sound(engine, *base, p);
        },
        _ => {},
    }
}

} // verus!
