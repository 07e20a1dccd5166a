use bellande_format::decode::parse_lines;
use bellande_format::encode::to_bellande_string;
use bellande_format::value::Value;

fn lines(ls: &[&str]) -> Vec<String> {
    ls.iter().map(|l| l.to_string()).collect()
}

fn map(entries: Vec<(&str, Value)>) -> Value {
    Value::Mapping(entries.into_iter().map(|(k, v)| (k.to_string(), v)).collect())
}

fn reparse(text: &str) -> Value {
    let ls: Vec<String> = text.lines().map(|l| l.to_string()).collect();
    parse_lines(&ls)
}

#[test]
fn empty_mapping_renders_empty() {
    assert_eq!(to_bellande_string(&Value::Mapping(Vec::new()), 0), "");
}

#[test]
fn flat_mapping() {
    let v = map(vec![
        ("a", Value::Integer(1)),
        ("b", Value::String("hi".to_string())),
        ("c", Value::Boolean(false)),
    ]);
    assert_eq!(to_bellande_string(&v, 0), "a: 1\nb: hi\nc: false");
}

#[test]
fn list_under_key() {
    let v = map(vec![
        ("a", Value::List(vec![Value::Integer(1), Value::Integer(2)])),
        ("b", Value::Integer(3)),
    ]);
    assert_eq!(to_bellande_string(&v, 0), "a:\n  - 1\n  - 2\nb: 3");
}

#[test]
fn nested_mapping() {
    let v = map(vec![("outer", map(vec![("inner", Value::Integer(5))]))]);
    assert_eq!(to_bellande_string(&v, 0), "outer:\n  inner: 5");
}

#[test]
fn quoting_in_context() {
    let v = map(vec![("k", Value::String("a b".to_string()))]);
    assert_eq!(to_bellande_string(&v, 0), "k: \"a b\"");
}

#[test]
fn starting_indent() {
    let v = map(vec![("a", Value::Integer(1))]);
    assert_eq!(to_bellande_string(&v, 4), "    a: 1");
}

#[test]
fn round_trip_flat() {
    let doc = lines(&["a: 1", "b: hello", "c: true", "d: null", "e: 2.5", "f: \"a b\""]);
    let v = parse_lines(&doc);
    let text = to_bellande_string(&v, 0);
    assert_eq!(reparse(&text), v);
}

#[test]
fn round_trip_nested() {
    let doc = lines(&["a:", "  - 1", "  - two", "b:", "  inner: 5", "c: 3"]);
    let v = parse_lines(&doc);
    let text = to_bellande_string(&v, 0);
    assert_eq!(reparse(&text), v);
}

#[test]
fn round_trip_is_fixed_point() {
    let doc = lines(&["a:", "  - 1", "b:", "  x: \"a b\"", "  y: -2"]);
    let v = parse_lines(&doc);
    let text1 = to_bellande_string(&v, 0);
    let v2 = reparse(&text1);
    let text2 = to_bellande_string(&v2, 0);
    assert_eq!(v2, v);
    assert_eq!(text2, text1);
}

#[test]
fn round_trip_empty_list() {
    let doc = lines(&["a:", "b: 1"]);
    let v = parse_lines(&doc);
    let text = to_bellande_string(&v, 0);
    assert_eq!(reparse(&text), v);
}
