use sink::tokenize::tokenize_query;

fn check(query: &str, expected: &[&str]) {
    let tokens = tokenize_query(query);
    assert_eq!(tokens, expected, "query = {query}");
}

#[test]
fn test_tokenize_plain_words() {
    check("", &[]);
    check(" ", &[]);
    check("a", &["a"]);
    check(" a ", &["a"]);
    check("a b", &["a", "b"]);
    check(" a b ", &["a", "b"]);
    check("abc", &["abc"]);
    check(" abc ", &["abc"]);
    check("abc def", &["abc", "def"]);
    check(" abc def ", &["abc", "def"]);
}

#[test]
fn test_tokenize_quote_table() {
    // the authoritative quote-handling table
    check("\"\"", &[""]);
    check("\"a\"", &["a"]);
    check("\"", &[""]);
    check("\"a", &["a"]);
    check("\" a \"", &[" a "]);
    check("\"a\" \"b\"", &["a", "b"]);
    check("a\"b\"c", &["a", "b", "c"]);
    check("\"a\"b", &["a", "b"]);
    check("\"\"a\"b", &["", "a", "b"]);
    check("\"\"\"a\"b", &["\"a", "b"]);
    check("\"\"\"\"a\"b", &["\"", "a", "b"]);
    check("\"\"\"\"\"a\"b", &["\"a", "b"]);
    check("\"\"\"\"\"\"", &["\""]);
}

#[test]
fn test_tokenize_doubled_quote_inside_token() {
    check("\"regex:abc \"\" def\"", &["regex:abc \" def"]);
    check("\"abc\"", &["abc"]);
    check("\" abc def \"", &[" abc def "]);
}
