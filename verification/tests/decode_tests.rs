use bellande_format::decode::parse_lines;
use bellande_format::value::Value;

fn lines(ls: &[&str]) -> Vec<String> {
    ls.iter().map(|l| l.to_string()).collect()
}

fn map(entries: Vec<(&str, Value)>) -> Value {
    Value::Mapping(entries.into_iter().map(|(k, v)| (k.to_string(), v)).collect())
}

#[test]
fn indentation_scoping() {
    let doc = lines(&["a:", "  - 1", "  - 2", "b: 3"]);
    let expected = map(vec![
        ("a", Value::List(vec![Value::Integer(1), Value::Integer(2)])),
        ("b", Value::Integer(3)),
    ]);
    assert_eq!(parse_lines(&doc), expected);
}

#[test]
fn nested_mapping_via_shared_indent() {
    let doc = lines(&["outer:", "  inner: 5"]);
    let expected = map(vec![("outer", map(vec![("inner", Value::Integer(5))]))]);
    assert_eq!(parse_lines(&doc), expected);
}

#[test]
fn empty_input() {
    let doc: Vec<String> = Vec::new();
    assert_eq!(parse_lines(&doc), Value::Mapping(Vec::new()));
}

#[test]
fn all_comments_and_blanks() {
    let doc = lines(&["# heading", "", "   ", "\t", "# more"]);
    assert_eq!(parse_lines(&doc), Value::Mapping(Vec::new()));
}

#[test]
fn comments_and_blanks_anywhere() {
    let plain = lines(&["a:", "  - 1", "b: 2"]);
    let noisy = lines(&["# note", "a:", "", "  - 1", "# between", "b: 2", ""]);
    assert_eq!(parse_lines(&noisy), parse_lines(&plain));
}

#[test]
fn scalar_values() {
    let doc = lines(&["s: hello", "n: 42", "f: 3.14", "b: TRUE", "z: null", "q: \"42\""]);
    let expected = map(vec![
        ("s", Value::String("hello".to_string())),
        ("n", Value::Integer(42)),
        ("f", Value::Float("3.14".to_string())),
        ("b", Value::Boolean(true)),
        ("z", Value::Null),
        ("q", Value::String("42".to_string())),
    ]);
    assert_eq!(parse_lines(&doc), expected);
}

#[test]
fn split_at_first_colon() {
    let doc = lines(&["url: http://example"]);
    let expected = map(vec![("url", Value::String("http://example".to_string()))]);
    assert_eq!(parse_lines(&doc), expected);
}

#[test]
fn duplicate_key_overwrites_in_place() {
    let doc = lines(&["k: 1", "m: 2", "k: 3"]);
    let expected = map(vec![("k", Value::Integer(3)), ("m", Value::Integer(2))]);
    assert_eq!(parse_lines(&doc), expected);
}

#[test]
fn empty_key_list_stays_empty() {
    let doc = lines(&["a:", "b: 1"]);
    let expected = map(vec![("a", Value::List(Vec::new())), ("b", Value::Integer(1))]);
    assert_eq!(parse_lines(&doc), expected);
}

#[test]
fn item_line_without_open_list_reuses_last_key() {
    // a later `-` line with no open list re-derives its target from the most
    // recent key, overwriting that key's value
    let doc = lines(&["k: 1", "- 2"]);
    let expected = map(vec![("k", Value::List(vec![Value::Integer(2)]))]);
    assert_eq!(parse_lines(&doc), expected);
}

#[test]
fn item_line_before_any_key_is_dropped() {
    let doc = lines(&["- 1", "k: 2"]);
    let expected = map(vec![("k", Value::Integer(2))]);
    assert_eq!(parse_lines(&doc), expected);
}

#[test]
fn equal_indent_closes_scope() {
    // the sibling list under `b` starts at the same indent as the one under
    // `a`, so `a`'s scope is closed first
    let doc = lines(&["a:", "  - 1", "b:", "  - 2"]);
    let expected = map(vec![
        ("a", Value::List(vec![Value::Integer(1)])),
        ("b", Value::List(vec![Value::Integer(2)])),
    ]);
    assert_eq!(parse_lines(&doc), expected);
}

#[test]
fn deeper_nesting() {
    let doc = lines(&["outer:", "  mid:", "    inner: 1", "  next: 2", "top: 3"]);
    let expected = map(vec![
        (
            "outer",
            map(vec![
                ("mid", map(vec![("inner", Value::Integer(1))])),
                ("next", Value::Integer(2)),
            ]),
        ),
        ("top", Value::Integer(3)),
    ]);
    assert_eq!(parse_lines(&doc), expected);
}

#[test]
fn unmatched_lines_are_ignored() {
    let doc = lines(&["a: 1", "just some words", "b: 2"]);
    let expected = map(vec![("a", Value::Integer(1)), ("b", Value::Integer(2))]);
    assert_eq!(parse_lines(&doc), expected);
}

#[test]
fn empty_key() {
    let doc = lines(&[": 5"]);
    let expected = map(vec![("", Value::Integer(5))]);
    assert_eq!(parse_lines(&doc), expected);
}

#[test]
fn lone_quote_value_is_bare_string() {
    // a value of a single double-quote character is not a quoted string
    let doc = lines(&["k: \""]);
    let expected = map(vec![("k", Value::String("\"".to_string()))]);
    assert_eq!(parse_lines(&doc), expected);
}
