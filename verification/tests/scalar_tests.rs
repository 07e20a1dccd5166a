use bellande_format::scalar::{parse_value, format_value};
use bellande_format::value::Value;

#[test]
fn keywords_any_case() {
    assert_eq!(parse_value("TRUE"), Value::Boolean(true));
    assert_eq!(parse_value("False"), Value::Boolean(false));
    assert_eq!(parse_value("NULL"), Value::Null);
    assert_eq!(parse_value("true"), Value::Boolean(true));
    assert_eq!(parse_value("null"), Value::Null);
}

#[test]
fn integers() {
    assert_eq!(parse_value("42"), Value::Integer(42));
    assert_eq!(parse_value("-17"), Value::Integer(-17));
    assert_eq!(parse_value("+5"), Value::Integer(5));
    assert_eq!(parse_value("0"), Value::Integer(0));
    assert_eq!(parse_value("007"), Value::Integer(7));
    assert_eq!(parse_value("9223372036854775807"), Value::Integer(i64::MAX));
    assert_eq!(parse_value("-9223372036854775808"), Value::Integer(i64::MIN));
}

#[test]
fn integer_overflow_falls_to_float() {
    assert_eq!(
        parse_value("9223372036854775808"),
        Value::Float("9223372036854775808".to_string())
    );
    assert_eq!(parse_value("99999999999999999999999"), Value::Float("99999999999999999999999".to_string()));
}

#[test]
fn floats() {
    assert_eq!(parse_value("3.14"), Value::Float("3.14".to_string()));
    assert_eq!(parse_value("-0.5"), Value::Float("-0.5".to_string()));
    assert_eq!(parse_value("1e3"), Value::Float("1e3".to_string()));
    assert_eq!(parse_value("2.5E-4"), Value::Float("2.5E-4".to_string()));
    assert_eq!(parse_value("inf"), Value::Float("inf".to_string()));
    assert_eq!(parse_value("-Infinity"), Value::Float("-Infinity".to_string()));
    assert_eq!(parse_value("NaN"), Value::Float("NaN".to_string()));
    assert_eq!(parse_value("3."), Value::Float("3.".to_string()));
    assert_eq!(parse_value(".5"), Value::Float(".5".to_string()));
}

#[test]
fn float_text_round_trips_through_parse() {
    // the stored float text must be the token itself, not something derived
    let v = parse_value("2.50");
    assert_eq!(v, Value::Float("2.50".to_string()));
    let f = format_value(&v);
    assert_eq!(f, "2.50");
    assert_eq!(parse_value(&f), v);
}

#[test]
fn quoted_strings() {
    assert_eq!(parse_value("\"42\""), Value::String("42".to_string()));
    assert_eq!(parse_value("\"a b\""), Value::String("a b".to_string()));
    assert_eq!(parse_value("\"\""), Value::String("".to_string()));
    // no escape processing: inner characters pass through
    assert_eq!(parse_value("\"a\\nb\""), Value::String("a\\nb".to_string()));
}

#[test]
fn bare_strings() {
    assert_eq!(parse_value("hello world"), Value::String("hello world".to_string()));
    assert_eq!(parse_value("plain"), Value::String("plain".to_string()));
    assert_eq!(parse_value(""), Value::String("".to_string()));
    assert_eq!(parse_value("1.2.3"), Value::String("1.2.3".to_string()));
    assert_eq!(parse_value("12a"), Value::String("12a".to_string()));
    assert_eq!(parse_value("1e"), Value::String("1e".to_string()));
}

#[test]
fn quoting_on_encode() {
    assert_eq!(format_value(&Value::String("true".to_string())), "\"true\"");
    assert_eq!(format_value(&Value::String("FALSE".to_string())), "\"FALSE\"");
    assert_eq!(format_value(&Value::String("a b".to_string())), "\"a b\"");
    assert_eq!(format_value(&Value::String("a:b".to_string())), "\"a:b\"");
    assert_eq!(format_value(&Value::String("plain".to_string())), "plain");
}

#[test]
fn scalar_rendering() {
    assert_eq!(format_value(&Value::Integer(42)), "42");
    assert_eq!(format_value(&Value::Integer(-5)), "-5");
    assert_eq!(format_value(&Value::Integer(i64::MIN)), "-9223372036854775808");
    assert_eq!(format_value(&Value::Boolean(true)), "true");
    assert_eq!(format_value(&Value::Boolean(false)), "false");
    assert_eq!(format_value(&Value::Null), "null");
    assert_eq!(format_value(&Value::Float("3.14".to_string())), "3.14");
}
