use attribute_search_engine::string_to_payload_type;
use attribute_search_engine::SearchEngineError;

#[test]
fn test_string_to_payload_type() {
    assert_eq!(string_to_payload_type("1234"), Ok(1234i32));
    assert_eq!(string_to_payload_type("123456"), Ok(123456usize));
    assert_eq!(string_to_payload_type("true"), Ok(true));
    assert_eq!(
        string_to_payload_type::<usize>("Hello"),
        Err(SearchEngineError::MismatchedQueryType)
    );
}

#[test]
fn parse_signed_values() {
    assert_eq!(string_to_payload_type("-20"), Ok(-20i32));
    assert_eq!(string_to_payload_type("+7"), Ok(7i32));
    assert_eq!(string_to_payload_type("-2147483648"), Ok(i32::MIN));
    assert_eq!(string_to_payload_type("2147483647"), Ok(i32::MAX));
    assert_eq!(
        string_to_payload_type::<i32>("2147483648"),
        Err(SearchEngineError::MismatchedQueryType)
    );
    assert_eq!(
        string_to_payload_type::<i32>("-2147483649"),
        Err(SearchEngineError::MismatchedQueryType)
    );
}

#[test]
fn parse_unsigned_values() {
    assert_eq!(string_to_payload_type("0"), Ok(0u8));
    assert_eq!(string_to_payload_type("255"), Ok(255u8));
    assert_eq!(
        string_to_payload_type::<u8>("256"),
        Err(SearchEngineError::MismatchedQueryType)
    );
    assert_eq!(
        string_to_payload_type::<u8>("-1"),
        Err(SearchEngineError::MismatchedQueryType)
    );
    assert_eq!(
        string_to_payload_type("18446744073709551615"),
        Ok(u64::MAX)
    );
    assert_eq!(
        string_to_payload_type::<u64>("18446744073709551616"),
        Err(SearchEngineError::MismatchedQueryType)
    );
}

#[test]
fn parse_rejects_garbage() {
    assert_eq!(
        string_to_payload_type::<u64>(""),
        Err(SearchEngineError::MismatchedQueryType)
    );
    assert_eq!(
        string_to_payload_type::<u64>("+"),
        Err(SearchEngineError::MismatchedQueryType)
    );
    assert_eq!(
        string_to_payload_type::<u64>("1 2"),
        Err(SearchEngineError::MismatchedQueryType)
    );
    assert_eq!(
        string_to_payload_type::<u64>("12a"),
        Err(SearchEngineError::MismatchedQueryType)
    );
    assert_eq!(
        string_to_payload_type::<bool>("TRUE"),
        Err(SearchEngineError::MismatchedQueryType)
    );
    assert_eq!(string_to_payload_type("false"), Ok(false));
}

#[test]
fn parse_string_is_identity() {
    assert_eq!(string_to_payload_type("Hello"), Ok(String::from("Hello")));
    assert_eq!(string_to_payload_type(""), Ok(String::new()));
}
