use json_parser::tokenize;

#[test]
fn test_tokenize_simple_object() {
    let input = r#"{"name":"John"}"#;
    let tokens = tokenize(input);
    assert_eq!(tokens, vec!["{", "\"name\"", ":", "\"John\"", "}"]);
}

#[test]
fn test_tokenize_with_comma() {
    let input = r#"{"a":1,"b":2}"#;
    let tokens = tokenize(input);
    assert_eq!(
        tokens,
        vec!["{", "\"a\"", ":", "1", ",", "\"b\"", ":", "2", "}"]
    );
}

#[test]
fn test_tokenize_array() {
    let input = "[1,2,3]";
    let tokens = tokenize(input);
    assert_eq!(tokens, vec!["[", "1", ",", "2", ",", "3", "]"]);
}

#[test]
fn test_tokenize_nested() {
    let input = r#"{"arr":[1,2]}"#;
    let tokens = tokenize(input);
    assert_eq!(
        tokens,
        vec!["{", "\"arr\"", ":", "[", "1", ",", "2", "]", "}"]
    );
}

#[test]
fn quoted_text_keeps_its_inner_space() {
    let tokens = tokenize(r#"{"name":"John Doe"}"#);
    assert_eq!(tokens, vec!["{", "\"name\"", ":", "\"John Doe\"", "}"]);
}

#[test]
fn empty_text_has_no_tokens() {
    assert_eq!(tokenize(""), Vec::<String>::new());
}

#[test]
fn run_without_a_closing_mark_is_dropped() {
    assert_eq!(tokenize("abc"), Vec::<String>::new());
    assert_eq!(tokenize("[1,2"), vec!["[", "1", ","]);
    assert_eq!(tokenize("\"John Doe\""), Vec::<String>::new());
}

#[test]
fn newline_is_dropped_even_inside_a_run() {
    assert_eq!(tokenize("ab\ncd,"), vec!["abcd", ","]);
    assert_eq!(tokenize("\n\n[\n]\n"), vec!["[", "]"]);
}

#[test]
fn space_is_dropped_only_before_a_run() {
    assert_eq!(tokenize("   a b ,"), vec!["a b ", ","]);
    assert_eq!(tokenize("[ 1 , 2 ]"), vec!["[", "1 ", ",", "2 ", "]"]);
    assert_eq!(tokenize(" \n ,"), vec![","]);
}

#[test]
fn opening_marks_end_a_pending_run() {
    assert_eq!(tokenize("ab[cd{ef}"), vec!["ab", "[", "cd", "{", "ef", "}"]);
}

#[test]
fn adjacent_marks_leave_no_empty_token() {
    assert_eq!(tokenize("[]{}:,"), vec!["[", "]", "{", "}", ":", ","]);
    assert_eq!(tokenize("[[,]]"), vec!["[", "[", ",", "]", "]"]);
}

#[test]
fn other_whitespace_and_wide_characters_are_kept() {
    assert_eq!(tokenize("\ta\r,"), vec!["\ta\r", ","]);
    assert_eq!(tokenize("héllo→,"), vec!["héllo→", ","]);
}

#[test]
fn no_more_tokens_than_characters() {
    let raw = "{\"a\":[1,2,{\"b\":3}],\"c\":\"d e\"}";
    let tokens = tokenize(raw);
    assert!(tokens.len() <= raw.chars().count());
    assert!(tokens.iter().all(|t| !t.is_empty()));
}

#[test]
fn tokens_of_a_text_begin_the_tokens_of_a_longer_text() {
    let short = tokenize("[1,2");
    let long = tokenize("[1,2,3]");
    assert_eq!(long[..short.len()], short[..]);
}
