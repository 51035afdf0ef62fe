use attribute_search_engine::IdSet;
use attribute_search_engine::Query;
use attribute_search_engine::SearchEngineError;
use attribute_search_engine::SearchIndex;
use attribute_search_engine::SearchIndexBTreeRange;

fn idset(vals: &[usize]) -> IdSet<usize> {
    let mut s = IdSet::new();
    for v in vals {
        s.insert(*v);
    }
    s
}

#[test]
fn btree_range_search_index_exact_string() {
    let mut index = SearchIndexBTreeRange::<usize, String>::new();
    index.insert(0, "A".into());
    index.insert(0, "B".into());
    index.insert(0, "C".into());
    index.insert(1, "A".into());
    index.insert(1, "B".into());
    index.insert(2, "A".into());

    let result = index.search(&Query::Exact("<not used>".into(), "A".into())).unwrap();
    assert!(result.set_eq(&idset(&[0, 1, 2])));

    let result = index.search(&Query::Exact("<not used>".into(), "B".into())).unwrap();
    assert!(result.set_eq(&idset(&[0, 1])));

    let result = index.search(&Query::Exact("<not used>".into(), "C".into())).unwrap();
    assert!(result.set_eq(&idset(&[0])));

    let result = index.search(&Query::Exact("<not used>".into(), "D".into())).unwrap();
    assert!(result.set_eq(&idset(&[])));
}

#[test]
fn btree_range_search_index_exact_number() {
    let mut index = SearchIndexBTreeRange::<usize, i32>::new();
    index.insert(0, 0);
    index.insert(0, 1);
    index.insert(0, 2);
    index.insert(1, 0);
    index.insert(1, 1);
    index.insert(2, 0);

    let result = index.search(&Query::Exact("<not used>".into(), "0".into())).unwrap();
    assert!(result.set_eq(&idset(&[0, 1, 2])));

    let result = index.search(&Query::Exact("<not used>".into(), "1".into())).unwrap();
    assert!(result.set_eq(&idset(&[0, 1])));

    let result = index.search(&Query::Exact("<not used>".into(), "2".into())).unwrap();
    assert!(result.set_eq(&idset(&[0])));

    let result = index.search(&Query::Exact("<not used>".into(), "4".into())).unwrap();
    assert!(result.set_eq(&idset(&[])));
}

fn number_index() -> SearchIndexBTreeRange<usize, i32> {
    let mut index = SearchIndexBTreeRange::<usize, i32>::new();
    index.insert(0, 00);
    index.insert(1, 10);
    index.insert(2, 20);
    index.insert(3, 30);
    index.insert(4, 40);
    index.insert(5, 50);
    index
}

#[test]
fn search_index_inrange_number() {
    let index = number_index();

    let result = index
        .search(&Query::InRange("<not used>".into(), "0".into(), "50".into()))
        .unwrap();
    assert!(result.set_eq(&idset(&[0, 1, 2, 3, 4, 5])));

    let result = index
        .search(&Query::InRange("<not used>".into(), "10".into(), "40".into()))
        .unwrap();
    assert!(result.set_eq(&idset(&[1, 2, 3, 4])));

    let result = index
        .search(&Query::InRange("<not used>".into(), "-20".into(), "20".into()))
        .unwrap();
    assert!(result.set_eq(&idset(&[0, 1, 2])));

    let result = index
        .search(&Query::InRange("<not used>".into(), "10".into(), "10".into()))
        .unwrap();
    assert!(result.set_eq(&idset(&[1])));

    let result = index
        .search(&Query::InRange("<not used>".into(), "50".into(), "10".into()))
        .unwrap();
    assert!(result.set_eq(&idset(&[])));

    let result = index
        .search(&Query::InRange("<not used>".into(), "51".into(), "100".into()))
        .unwrap();
    assert!(result.set_eq(&idset(&[])));
}

#[test]
fn search_index_outrange_number() {
    let index = number_index();

    let result = index
        .search(&Query::OutRange("<not used>".into(), "0".into(), "50".into()))
        .unwrap();
    assert!(result.set_eq(&idset(&[])));

    let result = index
        .search(&Query::OutRange("<not used>".into(), "10".into(), "40".into()))
        .unwrap();
    assert!(result.set_eq(&idset(&[0, 5])));

    let result = index
        .search(&Query::OutRange("<not used>".into(), "-20".into(), "20".into()))
        .unwrap();
    assert!(result.set_eq(&idset(&[3, 4, 5])));

    let result = index
        .search(&Query::OutRange("<not used>".into(), "10".into(), "10".into()))
        .unwrap();
    assert!(result.set_eq(&idset(&[0, 2, 3, 4, 5])));

    let result = index
        .search(&Query::OutRange("<not used>".into(), "50".into(), "10".into()))
        .unwrap();
    assert!(result.set_eq(&idset(&[])));

    let result = index
        .search(&Query::OutRange("<not used>".into(), "51".into(), "100".into()))
        .unwrap();
    assert!(result.set_eq(&idset(&[0, 1, 2, 3, 4, 5])));
}

#[test]
fn search_index_minimum_number() {
    let index = number_index();

    let result = index.search(&Query::Minimum("<not used>".into(), "0".into())).unwrap();
    assert!(result.set_eq(&idset(&[0, 1, 2, 3, 4, 5])));

    let result = index.search(&Query::Minimum("<not used>".into(), "10".into())).unwrap();
    assert!(result.set_eq(&idset(&[1, 2, 3, 4, 5])));

    let result = index.search(&Query::Minimum("<not used>".into(), "-20".into())).unwrap();
    assert!(result.set_eq(&idset(&[0, 1, 2, 3, 4, 5])));

    let result = index.search(&Query::Minimum("<not used>".into(), "30".into())).unwrap();
    assert!(result.set_eq(&idset(&[3, 4, 5])));

    let result = index.search(&Query::Minimum("<not used>".into(), "50".into())).unwrap();
    assert!(result.set_eq(&idset(&[5])));

    let result = index.search(&Query::Minimum("<not used>".into(), "51".into())).unwrap();
    assert!(result.set_eq(&idset(&[])));
}

#[test]
fn search_index_maximum_number() {
    let index = number_index();

    let result = index.search(&Query::Maximum("<not used>".into(), "50".into())).unwrap();
    assert!(result.set_eq(&idset(&[0, 1, 2, 3, 4, 5])));

    let result = index.search(&Query::Maximum("<not used>".into(), "40".into())).unwrap();
    assert!(result.set_eq(&idset(&[0, 1, 2, 3, 4])));

    let result = index.search(&Query::Maximum("<not used>".into(), "30".into())).unwrap();
    assert!(result.set_eq(&idset(&[0, 1, 2, 3])));

    let result = index.search(&Query::Maximum("<not used>".into(), "0".into())).unwrap();
    assert!(result.set_eq(&idset(&[0])));

    let result = index.search(&Query::Maximum("<not used>".into(), "-1".into())).unwrap();
    assert!(result.set_eq(&idset(&[])));
}

#[test]
fn btree_range_search_index_unsupported_queries() {
    let mut index = SearchIndexBTreeRange::<usize, i32>::new();
    index.insert(0, 0);

    assert_eq!(
        index
            .search(&Query::Prefix("<not used>".into(), "0".into()))
            .unwrap_err(),
        SearchEngineError::UnsupportedQuery
    );
    assert_eq!(
        index.search(&Query::Or(vec![])).unwrap_err(),
        SearchEngineError::UnsupportedQuery
    );
    assert_eq!(
        index.search(&Query::And(vec![])).unwrap_err(),
        SearchEngineError::UnsupportedQuery
    );
    assert_eq!(
        index
            .search(&Query::Exclude(
                Box::new(Query::Exact("<not used>".into(), "0".into())),
                vec![]
            ))
            .unwrap_err(),
        SearchEngineError::UnsupportedQuery
    );
}

#[test]
fn btree_range_mismatched_payload() {
    let mut index = SearchIndexBTreeRange::<usize, i32>::new();
    index.insert(0, 0);

    assert_eq!(
        index
            .search(&Query::Exact("<not used>".into(), "abc".into()))
            .unwrap_err(),
        SearchEngineError::MismatchedQueryType
    );
    assert_eq!(
        index
            .search(&Query::InRange("<not used>".into(), "0".into(), "x".into()))
            .unwrap_err(),
        SearchEngineError::MismatchedQueryType
    );
}

#[test]
fn btree_range_insert_idempotent() {
    let mut once = SearchIndexBTreeRange::<usize, i32>::new();
    once.insert(7, 42);
    let mut twice = SearchIndexBTreeRange::<usize, i32>::new();
    twice.insert(7, 42);
    twice.insert(7, 42);

    let q = Query::Exact("<not used>".into(), "42".into());
    let a = once.search(&q).unwrap();
    let b = twice.search(&q).unwrap();
    assert!(a.set_eq(&b));
    assert_eq!(b.len(), 1);
}
