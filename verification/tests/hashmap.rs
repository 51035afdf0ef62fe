use attribute_search_engine::IdSet;
use attribute_search_engine::Query;
use attribute_search_engine::SearchEngineError;
use attribute_search_engine::SearchIndex;
use attribute_search_engine::SearchIndexHashMap;

fn idset(vals: &[usize]) -> IdSet<usize> {
    let mut s = IdSet::new();
    for v in vals {
        s.insert(*v);
    }
    s
}

#[test]
fn hashmap_search_index_exact_string() {
    let mut index = SearchIndexHashMap::<usize, String>::new();
    index.insert(0, "A".into());
    index.insert(0, "B".into());
    index.insert(0, "C".into());
    index.insert(1, "A".into());
    index.insert(1, "B".into());
    index.insert(2, "A".into());

    let result = index.search(&Query::Exact("<not used>".into(), "A".into())).unwrap();
    assert!(result.set_eq(&idset(&[0, 1, 2])));

    let result = index.search(&Query::Exact("<not used>".into(), "B".into())).unwrap();
    assert!(result.set_eq(&idset(&[0, 1])));

    let result = index.search(&Query::Exact("<not used>".into(), "C".into())).unwrap();
    assert!(result.set_eq(&idset(&[0])));

    let result = index.search(&Query::Exact("<not used>".into(), "D".into())).unwrap();
    assert!(result.set_eq(&idset(&[])));
}

#[test]
fn hashmap_search_index_exact_number() {
    let mut index = SearchIndexHashMap::<usize, i32>::new();
    index.insert(0, 0);
    index.insert(0, 1);
    index.insert(0, 2);
    index.insert(1, 0);
    index.insert(1, 1);
    index.insert(2, 0);

    let result = index.search(&Query::Exact("<not used>".into(), "0".into())).unwrap();
    assert!(result.set_eq(&idset(&[0, 1, 2])));

    let result = index.search(&Query::Exact("<not used>".into(), "1".into())).unwrap();
    assert!(result.set_eq(&idset(&[0, 1])));

    let result = index.search(&Query::Exact("<not used>".into(), "2".into())).unwrap();
    assert!(result.set_eq(&idset(&[0])));

    let result = index.search(&Query::Exact("<not used>".into(), "4".into())).unwrap();
    assert!(result.set_eq(&idset(&[])));
}

#[test]
fn hashmap_search_index_unsupported_queries() {
    let mut index = SearchIndexHashMap::<usize, i32>::new();
    index.insert(0, 0);

    assert_eq!(
        index
            .search(&Query::Prefix("<not used>".into(), "0".into()))
            .unwrap_err(),
        SearchEngineError::UnsupportedQuery
    );
    assert_eq!(
        index
            .search(&Query::InRange("<not used>".into(), "0".into(), "1".into()))
            .unwrap_err(),
        SearchEngineError::UnsupportedQuery
    );
    assert_eq!(
        index
            .search(&Query::OutRange("<not used>".into(), "0".into(), "1".into()))
            .unwrap_err(),
        SearchEngineError::UnsupportedQuery
    );
    assert_eq!(
        index
            .search(&Query::Minimum("<not used>".into(), "0".into()))
            .unwrap_err(),
        SearchEngineError::UnsupportedQuery
    );
    assert_eq!(
        index
            .search(&Query::Maximum("<not used>".into(), "0".into()))
            .unwrap_err(),
        SearchEngineError::UnsupportedQuery
    );
    assert_eq!(
        index.search(&Query::Or(vec![])).unwrap_err(),
        SearchEngineError::UnsupportedQuery
    );
    assert_eq!(
        index.search(&Query::And(vec![])).unwrap_err(),
        SearchEngineError::UnsupportedQuery
    );
    assert_eq!(
        index
            .search(&Query::Exclude(
                Box::new(Query::Exact("<not used>".into(), "0".into())),
                vec![]
            ))
            .unwrap_err(),
        SearchEngineError::UnsupportedQuery
    );
}

#[test]
fn hashmap_insert_idempotent() {
    let mut once = SearchIndexHashMap::<usize, String>::new();
    once.insert(3, "pet".into());
    let mut twice = SearchIndexHashMap::<usize, String>::new();
    twice.insert(3, "pet".into());
    twice.insert(3, "pet".into());

    let q = Query::Exact("<not used>".into(), "pet".into());
    let a = once.search(&q).unwrap();
    let b = twice.search(&q).unwrap();
    assert!(a.set_eq(&b));
    assert_eq!(b.len(), 1);
}
