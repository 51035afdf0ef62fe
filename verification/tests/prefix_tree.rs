use attribute_search_engine::HashSetPrefixTree;
use attribute_search_engine::IdSet;
use attribute_search_engine::Query;
use attribute_search_engine::SearchEngineError;
use attribute_search_engine::SearchIndex;
use attribute_search_engine::SearchIndexPrefixTree;

fn idset(vals: &[usize]) -> IdSet<usize> {
    let mut s = IdSet::new();
    for v in vals {
        s.insert(*v);
    }
    s
}

#[test]
fn mod_search_index_exact_string() {
    let mut index = SearchIndexPrefixTree::<usize>::new();
    index.insert(0, "A".into());
    index.insert(0, "B".into());
    index.insert(0, "C".into());
    index.insert(1, "A".into());
    index.insert(1, "B".into());
    index.insert(2, "A".into());

    let result = index.search(&Query::Exact("<not used>".into(), "A".into())).unwrap();
    assert!(result.set_eq(&idset(&[0, 1, 2])));

    let result = index.search(&Query::Exact("<not used>".into(), "B".into())).unwrap();
    assert!(result.set_eq(&idset(&[0, 1])));

    let result = index.search(&Query::Exact("<not used>".into(), "C".into())).unwrap();
    assert!(result.set_eq(&idset(&[0])));

    let result = index.search(&Query::Exact("<not used>".into(), "D".into())).unwrap();
    assert!(result.set_eq(&idset(&[])));
}

#[test]
fn search_index_prefix_string() {
    let mut index = SearchIndexPrefixTree::<usize>::new();
    index.insert(0, "A".into());
    index.insert(1, "AA".into());
    index.insert(2, "AB".into());
    index.insert(3, "ABA".into());
    index.insert(4, "ABB".into());
    index.insert(5, "ABC".into());
    index.insert(6, "B".into());
    index.insert(7, "BA".into());
    index.insert(8, "BB".into());

    let result = index.search(&Query::Prefix("<not used>".into(), "A".into())).unwrap();
    assert!(result.set_eq(&idset(&[0, 1, 2, 3, 4, 5])));

    let result = index.search(&Query::Prefix("<not used>".into(), "B".into())).unwrap();
    assert!(result.set_eq(&idset(&[6, 7, 8])));

    let result = index.search(&Query::Prefix("<not used>".into(), "C".into())).unwrap();
    assert!(result.set_eq(&idset(&[])));

    let result = index.search(&Query::Prefix("<not used>".into(), "AB".into())).unwrap();
    assert!(result.set_eq(&idset(&[2, 3, 4, 5])));

    let result = index.search(&Query::Prefix("<not used>".into(), "ABC".into())).unwrap();
    assert!(result.set_eq(&idset(&[5])));
}

#[test]
fn mod_search_index_unsupported_queries() {
    let mut index = SearchIndexPrefixTree::<usize>::new();
    index.insert(0, "".into());

    assert_eq!(
        index
            .search(&Query::InRange("<not used>".into(), "0".into(), "1".into()))
            .unwrap_err(),
        SearchEngineError::UnsupportedQuery
    );
    assert_eq!(
        index
            .search(&Query::OutRange("<not used>".into(), "0".into(), "1".into()))
            .unwrap_err(),
        SearchEngineError::UnsupportedQuery
    );
    assert_eq!(
        index
            .search(&Query::Minimum("<not used>".into(), "0".into()))
            .unwrap_err(),
        SearchEngineError::UnsupportedQuery
    );
    assert_eq!(
        index
            .search(&Query::Maximum("<not used>".into(), "0".into()))
            .unwrap_err(),
        SearchEngineError::UnsupportedQuery
    );
    assert_eq!(
        index.search(&Query::Or(vec![])).unwrap_err(),
        SearchEngineError::UnsupportedQuery
    );
    assert_eq!(
        index.search(&Query::And(vec![])).unwrap_err(),
        SearchEngineError::UnsupportedQuery
    );
    assert_eq!(
        index
            .search(&Query::Exclude(
                Box::new(Query::Exact("<not used>".into(), "0".into())),
                vec![]
            ))
            .unwrap_err(),
        SearchEngineError::UnsupportedQuery
    );
}

#[test]
fn tree_get_and_get_prefix() {
    let mut tree = HashSetPrefixTree::<usize>::new();
    tree.insert("finances.read", 0);
    tree.insert("finances.write", 1);
    tree.insert("dashboard.show", 2);
    tree.insert("finances.read", 3);

    let exact = tree.get("finances.read").unwrap();
    assert!(exact.set_eq(&idset(&[0, 3])));

    assert!(tree.get("finances").is_none());
    assert!(tree.get("nothing").is_none());

    let all = tree.get_prefix("").unwrap();
    assert!(all.set_eq(&idset(&[0, 1, 2, 3])));

    let fin = tree.get_prefix("finances").unwrap();
    assert!(fin.set_eq(&idset(&[0, 1, 3])));

    assert!(tree.get_prefix("x").is_none());
}

#[test]
fn tree_insert_idempotent() {
    let mut once = HashSetPrefixTree::<usize>::new();
    once.insert("key", 9);
    let mut twice = HashSetPrefixTree::<usize>::new();
    twice.insert("key", 9);
    twice.insert("key", 9);

    let a = once.get("key").unwrap();
    let b = twice.get("key").unwrap();
    assert!(a.set_eq(&b));
    assert_eq!(b.len(), 1);
}

#[test]
fn tree_empty_key() {
    let mut tree = HashSetPrefixTree::<usize>::new();
    tree.insert("", 4);
    let root = tree.get("").unwrap();
    assert!(root.set_eq(&idset(&[4])));
    let all = tree.get_prefix("").unwrap();
    assert!(all.set_eq(&idset(&[4])));
}
