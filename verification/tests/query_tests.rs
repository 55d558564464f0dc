use sink::query::QueryExpression;
use sink::tokenize::tokenize_query;

#[test]
fn test_query_expressions() {
    let tokens = tokenize_query(r#"event-id:123 id:123 regex:abc abc:def abc "abc def""#);

    let mut iter = tokens.iter().map(|token| QueryExpression::from(token.as_str()));

    assert_eq!(iter.next(), Some(QueryExpression::EventId("123".to_string())));
    assert_eq!(iter.next(), Some(QueryExpression::Id("123".to_string())));
    assert_eq!(iter.next(), Some(QueryExpression::Regex("abc".to_string())));
    assert_eq!(
        iter.next(),
        Some(QueryExpression::Header("abc".to_string(), "def".to_string()))
    );
    assert_eq!(iter.next(), Some(QueryExpression::Text("abc".to_string())));
    assert_eq!(iter.next(), Some(QueryExpression::Text("abc def".to_string())));
    assert_eq!(iter.next(), None);
}

#[test]
fn test_query_expression_body_prefix() {
    assert_eq!(
        QueryExpression::from("body:id:5"),
        QueryExpression::Text("id:5".to_string())
    );
    assert_eq!(
        QueryExpression::from("plain"),
        QueryExpression::Text("plain".to_string())
    );
}
