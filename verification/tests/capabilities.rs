use attribute_search_engine::SearchIndex;
use attribute_search_engine::SearchIndexBTreeRange;
use attribute_search_engine::SearchIndexHashMap;
use attribute_search_engine::SearchIndexPrefixTree;
use attribute_search_engine::SUPPORTS_EXACT;
use attribute_search_engine::SUPPORTS_INRANGE;
use attribute_search_engine::SUPPORTS_MAXIMUM;
use attribute_search_engine::SUPPORTS_MINIMUM;
use attribute_search_engine::SUPPORTS_OUTRANGE;
use attribute_search_engine::SUPPORTS_PREFIX;

#[test]
fn capability_wire_values() {
    assert_eq!(SUPPORTS_EXACT, 1 << 0);
    assert_eq!(SUPPORTS_PREFIX, 1 << 1);
    assert_eq!(SUPPORTS_INRANGE, 1 << 2);
    assert_eq!(SUPPORTS_OUTRANGE, 1 << 3);
    assert_eq!(SUPPORTS_MINIMUM, 1 << 4);
    assert_eq!(SUPPORTS_MAXIMUM, 1 << 5);
}

#[test]
fn index_capability_masks() {
    let hash = SearchIndexHashMap::<usize, String>::new();
    assert_eq!(hash.supported_queries(), SUPPORTS_EXACT);

    let range = SearchIndexBTreeRange::<usize, u64>::new();
    assert_eq!(
        range.supported_queries(),
        SUPPORTS_EXACT | SUPPORTS_INRANGE | SUPPORTS_MINIMUM | SUPPORTS_MAXIMUM
            | SUPPORTS_OUTRANGE
    );

    let prefix = SearchIndexPrefixTree::<usize>::new();
    assert_eq!(prefix.supported_queries(), SUPPORTS_EXACT | SUPPORTS_PREFIX);
}
