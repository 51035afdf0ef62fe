use attribute_search_engine::EngineIndex;
use attribute_search_engine::IdSet;
use attribute_search_engine::Query;
use attribute_search_engine::SearchEngine;
use attribute_search_engine::SearchIndexBTreeRange;
use attribute_search_engine::SearchIndexHashMap;
use attribute_search_engine::SearchIndexPrefixTree;

fn idset(vals: &[usize]) -> IdSet<usize> {
    let mut s = IdSet::new();
    for v in vals {
        s.insert(*v);
    }
    s
}

/// An engine with three exact-match indices whose postings under the
/// value "DUMMY" are fixed sets, mirroring stub indices with fixed
/// results.
fn create_combinator_engine() -> SearchEngine<usize> {
    let mut index_a = SearchIndexHashMap::<usize, String>::new();
    index_a.insert(1, "DUMMY".into());
    index_a.insert(2, "DUMMY".into());
    let mut index_b = SearchIndexHashMap::<usize, String>::new();
    index_b.insert(3, "DUMMY".into());
    index_b.insert(4, "DUMMY".into());
    let mut index_c = SearchIndexHashMap::<usize, String>::new();
    index_c.insert(2, "DUMMY".into());
    index_c.insert(5, "DUMMY".into());
    index_c.insert(6, "DUMMY".into());

    let mut engine = SearchEngine::<usize>::new();
    engine.add_index("a", EngineIndex::HashText(index_a));
    engine.add_index("b", EngineIndex::HashText(index_b));
    engine.add_index("c", EngineIndex::HashText(index_c));
    engine
}

#[test]
fn search_or() {
    let engine = create_combinator_engine();
    let result = engine
        .search(&Query::Or(vec![
            Query::Exact("a".into(), "DUMMY".into()),
            Query::Exact("c".into(), "DUMMY".into()),
        ]))
        .unwrap();
    assert!(result.set_eq(&idset(&[1, 2, 5, 6])));
}

#[test]
fn search_and() {
    let engine = create_combinator_engine();
    let result = engine
        .search(&Query::And(vec![
            Query::Exact("a".into(), "DUMMY".into()),
            Query::Exact("c".into(), "DUMMY".into()),
        ]))
        .unwrap();
    assert!(result.set_eq(&idset(&[2])));
}

#[test]
fn search_exclude() {
    let engine = create_combinator_engine();
    let result = engine
        .search(&Query::Exclude(
            Box::new(Query::Exact("c".into(), "DUMMY".into())),
            vec![Query::Exact("a".into(), "DUMMY".into())],
        ))
        .unwrap();
    assert!(result.set_eq(&idset(&[5, 6])));
}

/// An engine whose indices have the capability masks the parser tests
/// rely on: `zipcode` supports Exact, Minimum, Maximum and InRange;
/// `pet` only Exact; `name` Exact and Prefix.
fn create_parser_engine() -> SearchEngine<usize> {
    let mut engine = SearchEngine::<usize>::new();
    engine.add_index(
        "zipcode",
        EngineIndex::RangeU64(SearchIndexBTreeRange::<usize, u64>::new()),
    );
    engine.add_index(
        "pet",
        EngineIndex::HashText(SearchIndexHashMap::<usize, String>::new()),
    );
    engine.add_index(
        "name",
        EngineIndex::Prefix(SearchIndexPrefixTree::<usize>::new()),
    );
    engine
}

#[test]
fn query_parser_empty() {
    let engine = create_parser_engine();
    let (q, freetext) = engine.query_from_str("").unwrap();
    assert_eq!(q, Query::And(vec![]));
    assert_eq!(freetext, vec![] as Vec<&str>);
}

#[test]
fn query_parser_basic() {
    let engine = create_parser_engine();
    let (q, freetext) = engine
        .query_from_str("+zipcode:12345 +pet:Dog -name:Hans freetext")
        .unwrap();
    assert_eq!(
        q,
        Query::Exclude(
            Box::new(Query::And(vec![
                Query::Exact("zipcode".into(), "12345".into()),
                Query::Exact("pet".into(), "Dog".into())
            ])),
            vec![Query::Prefix("name".into(), "Hans".into())]
        )
    );
    assert_eq!(freetext, vec!["freetext"]);
}

#[test]
fn query_parser_modificators() {
    let engine = create_parser_engine();
    let (q, freetext) = engine
        .query_from_str("abc +zipcode:>12345 +zipcode:<99999 +zipcode:50000-60000 +name:=Hans def")
        .unwrap();
    assert_eq!(
        q,
        Query::And(vec![
            Query::Minimum("zipcode".into(), "12345".into()),
            Query::Maximum("zipcode".into(), "99999".into()),
            Query::InRange("zipcode".into(), "50000".into(), "60000".into()),
            Query::Exact("name".into(), "Hans".into()),
        ])
    );
    assert_eq!(freetext, vec!["abc", "def"]);
}

#[test]
fn query_parser_alternatives() {
    let engine = create_parser_engine();
    let (q, freetext) = engine
        .query_from_str("start +pet:Cat,Dog +name:Alex,=Hans middle +zipcode:=10000,<500,50000-60000 end")
        .unwrap();
    assert_eq!(
        q,
        Query::And(vec![
            Query::Or(vec![
                Query::Exact("pet".into(), "Cat".into()),
                Query::Exact("pet".into(), "Dog".into()),
            ]),
            Query::Or(vec![
                Query::Prefix("name".into(), "Alex".into()),
                Query::Exact("name".into(), "Hans".into()),
            ]),
            Query::Or(vec![
                Query::Exact("zipcode".into(), "10000".into()),
                Query::Maximum("zipcode".into(), "500".into()),
                Query::InRange("zipcode".into(), "50000".into(), "60000".into()),
            ]),
        ])
    );
    assert_eq!(freetext, vec!["start", "middle", "end"]);
}

#[test]
fn query_parser_unknown_attribute() {
    let engine = create_parser_engine();
    let err = engine.query_from_str("+city:Berlin").unwrap_err();
    assert_eq!(
        err,
        attribute_search_engine::SearchEngineError::UnknownAttribute
    );
}

#[test]
fn add_index_overwrites_silently() {
    let mut engine = SearchEngine::<usize>::new();
    let mut first = SearchIndexHashMap::<usize, String>::new();
    first.insert(1, "x".into());
    let mut second = SearchIndexHashMap::<usize, String>::new();
    second.insert(2, "x".into());
    engine.add_index("attr", EngineIndex::HashText(first));
    engine.add_index("attr", EngineIndex::HashText(second));
    let result = engine
        .search(&Query::Exact("attr".into(), "x".into()))
        .unwrap();
    assert!(result.set_eq(&idset(&[2])));
}
