use attribute_search_engine::QueryLexer;
use attribute_search_engine::QueryToken;

fn tokens(input: &str) -> Vec<QueryToken<'_>> {
    let mut lexer = QueryLexer::new(input);
    let mut out = Vec::new();
    while let Some(t) = lexer.next_token() {
        out.push(t);
    }
    out
}

#[test]
fn lexer_empty() {
    assert_eq!(tokens(""), vec![]);
}

#[test]
fn lexer_single_char() {
    assert_eq!(tokens("A"), vec![QueryToken::Freetext("A")]);
}

#[test]
fn lexer_single_plus() {
    assert_eq!(tokens("+"), vec![QueryToken::Freetext("+")]);
}

#[test]
fn lexer_single_minus() {
    assert_eq!(tokens("-"), vec![QueryToken::Freetext("-")]);
}

#[test]
fn lexer_single_colon() {
    assert_eq!(tokens(":"), vec![QueryToken::Freetext(":")]);
}

#[test]
fn lexer_single_attribute() {
    assert_eq!(
        tokens("+a:b"),
        vec![QueryToken::Attribute(true, "a", vec!["b"])]
    );
}

#[test]
fn lexer_half_attribute() {
    assert_eq!(tokens("+a"), vec![QueryToken::Freetext("+a")]);
}

#[test]
fn lexer_plus_colon() {
    assert_eq!(tokens("+:"), vec![QueryToken::Freetext("+:")]);
}

#[test]
fn lexer_colon_plus() {
    assert_eq!(tokens(":+"), vec![QueryToken::Freetext(":+")]);
}

#[test]
fn lexer_empty_attribute() {
    assert_eq!(tokens("+a:"), vec![QueryToken::Attribute(true, "a", vec![])]);
}

#[test]
fn lexer_empty_attribute_space() {
    assert_eq!(
        tokens("+a: "),
        vec![QueryToken::Attribute(true, "a", vec![])]
    );
}

#[test]
fn lexer_basic() {
    assert_eq!(
        tokens("hello  +zipcode:12345  +pet:Dog  -name:Hans  world"),
        vec![
            QueryToken::Freetext("hello"),
            QueryToken::Attribute(true, "zipcode", vec!["12345"]),
            QueryToken::Attribute(true, "pet", vec!["Dog"]),
            QueryToken::Attribute(false, "name", vec!["Hans"]),
            QueryToken::Freetext("world"),
        ]
    );
}

#[test]
fn lexer_spaces() {
    assert_eq!(
        tokens("  \t  hello  +zipcode:12345  \n +pet:Dog  -name:Hans   world    "),
        vec![
            QueryToken::Freetext("hello"),
            QueryToken::Attribute(true, "zipcode", vec!["12345"]),
            QueryToken::Attribute(true, "pet", vec!["Dog"]),
            QueryToken::Attribute(false, "name", vec!["Hans"]),
            QueryToken::Freetext("world"),
        ]
    );
}

#[test]
fn lexer_comma() {
    assert_eq!(
        tokens("+a1:v1 +a2:v1,v2 +a3:v1,v2,v3 -a4:v1,,v2 -a5:v1,v2, +a6:,,,"),
        vec![
            QueryToken::Attribute(true, "a1", vec!["v1"]),
            QueryToken::Attribute(true, "a2", vec!["v1", "v2"]),
            QueryToken::Attribute(true, "a3", vec!["v1", "v2", "v3"]),
            QueryToken::Attribute(false, "a4", vec!["v1", "v2"]),
            QueryToken::Attribute(false, "a5", vec!["v1", "v2"]),
            QueryToken::Attribute(true, "a6", vec![]),
        ]
    );
}

#[test]
fn lexer_incomplete() {
    assert_eq!(
        tokens(" + - +a -b +a-b "),
        vec![
            QueryToken::Freetext("+"),
            QueryToken::Freetext("-"),
            QueryToken::Freetext("+a"),
            QueryToken::Freetext("-b"),
            QueryToken::Freetext("+a-b"),
        ]
    );
}

#[test]
fn lexer_chained() {
    assert_eq!(
        tokens("+a:hello+b:world-foo:+bar,-baz:,buzz"),
        vec![QueryToken::Attribute(
            true,
            "a",
            vec!["hello+b:world-foo:+bar", "-baz:", "buzz"]
        )]
    );
}

#[test]
fn lexer_unicode() {
    assert_eq!(
        tokens("\ne376$$bf% sfse-\u{a7}$\t hello+world \u{c4}\u{d6}\u{dc}-+- \u{1f601}\u{261d}\u{1f3fc}\n\t"),
        vec![
            QueryToken::Freetext("e376$$bf%"),
            QueryToken::Freetext("sfse-\u{a7}$"),
            QueryToken::Freetext("hello+world"),
            QueryToken::Freetext("\u{c4}\u{d6}\u{dc}-+-"),
            QueryToken::Freetext("\u{1f601}\u{261d}\u{1f3fc}"),
        ]
    );
}
