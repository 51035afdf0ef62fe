use attribute_search_engine::EngineIndex;
use attribute_search_engine::IdSet;
use attribute_search_engine::Query;
use attribute_search_engine::SearchEngine;
use attribute_search_engine::SearchIndexHashMap;

fn idset(vals: &[usize]) -> IdSet<usize> {
    let mut s = IdSet::new();
    for v in vals {
        s.insert(*v);
    }
    s
}

fn engine() -> SearchEngine<usize> {
    let mut index = SearchIndexHashMap::<usize, String>::new();
    index.insert(1, "red".into());
    index.insert(2, "red".into());
    index.insert(2, "blue".into());
    index.insert(3, "blue".into());
    let mut e = SearchEngine::new();
    e.add_index("color", EngineIndex::HashText(index));
    e
}

#[test]
fn or_of_nothing_is_empty() {
    let e = engine();
    let r = e.search(&Query::Or(vec![])).unwrap();
    assert!(r.set_eq(&idset(&[])));
}

#[test]
fn and_of_nothing_is_empty() {
    let e = engine();
    let r = e.search(&Query::And(vec![])).unwrap();
    assert!(r.set_eq(&idset(&[])));
}

#[test]
fn or_of_one_is_the_child() {
    let e = engine();
    let child = Query::Exact("color".into(), "red".into());
    let direct = e.search(&child).unwrap();
    let wrapped = e.search(&Query::Or(vec![child])).unwrap();
    assert!(wrapped.set_eq(&direct));
    assert!(wrapped.set_eq(&idset(&[1, 2])));
}

#[test]
fn and_of_one_is_the_child() {
    let e = engine();
    let child = Query::Exact("color".into(), "blue".into());
    let direct = e.search(&child).unwrap();
    let wrapped = e.search(&Query::And(vec![child])).unwrap();
    assert!(wrapped.set_eq(&direct));
    assert!(wrapped.set_eq(&idset(&[2, 3])));
}

#[test]
fn or_is_union() {
    let e = engine();
    let r = e
        .search(&Query::Or(vec![
            Query::Exact("color".into(), "red".into()),
            Query::Exact("color".into(), "blue".into()),
        ]))
        .unwrap();
    assert!(r.set_eq(&idset(&[1, 2, 3])));
}

#[test]
fn and_is_intersection() {
    let e = engine();
    let r = e
        .search(&Query::And(vec![
            Query::Exact("color".into(), "red".into()),
            Query::Exact("color".into(), "blue".into()),
        ]))
        .unwrap();
    assert!(r.set_eq(&idset(&[2])));
}

#[test]
fn exclude_is_difference() {
    let e = engine();
    let r = e
        .search(&Query::Exclude(
            Box::new(Query::Exact("color".into(), "red".into())),
            vec![Query::Exact("color".into(), "blue".into())],
        ))
        .unwrap();
    assert!(r.set_eq(&idset(&[1])));
}

fn bad() -> Query {
    Query::Exact("shape".into(), "square".into())
}

fn good() -> Query {
    Query::Exact("color".into(), "red".into())
}

#[test]
fn errors_propagate_through_combinators() {
    let e = engine();
    assert!(e.search(&Query::Or(vec![good(), bad()])).is_err());
    assert!(e.search(&Query::And(vec![good(), bad()])).is_err());
    assert!(e.search(&Query::Exclude(Box::new(good()), vec![bad()])).is_err());
}
