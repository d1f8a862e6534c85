//! Encoder tests: literal compression, number abbreviation, string
//! quoting, array layouts and the named tabular root.

use neon::{encode, encode_compact, NeonEncodeOptions, NeonEncoder};
use neon::Number;
use neon::Value;

fn num(i: i64) -> Value {
    Value::Num(Number::from_i64(i))
}

fn s(t: &str) -> Value {
    Value::Str(t.to_string())
}

#[test]
fn test_encode_null() {
    let result = encode(&Value::Null, None).unwrap();
    assert_eq!(result, "N");
}

#[test]
fn test_encode_boolean() {
    assert_eq!(encode(&Value::Bool(true), None).unwrap(), "T");
    assert_eq!(encode(&Value::Bool(false), None).unwrap(), "F");
}

#[test]
fn test_encode_number() {
    assert_eq!(encode(&num(42), None).unwrap(), "42");
    assert_eq!(encode(&num(95000), None).unwrap(), "95K");
    assert_eq!(encode(&num(2500000), None).unwrap(), "2.5M");
}

#[test]
fn test_encode_string() {
    assert_eq!(encode(&s("hello"), None).unwrap(), "hello");
    assert_eq!(encode(&s("hello world"), None).unwrap(), "hello_world");
}

#[test]
fn test_encode_array() {
    let result = encode(&Value::Array(vec![num(1), num(2), num(3)]), None).unwrap();
    assert_eq!(result, "#3 1 2 3");
}

#[test]
fn test_encode_tabular() {
    let data = Value::Object(vec![(
        "users".to_string(),
        Value::Array(vec![
            Value::Object(vec![
                ("id".to_string(), num(1)),
                ("name".to_string(), s("Alice")),
            ]),
            Value::Object(vec![
                ("id".to_string(), num(2)),
                ("name".to_string(), s("Bob")),
            ]),
        ]),
    )]);
    let result = encode(&data, None).unwrap();
    assert!(result.contains("users#2^"));
    assert!(result.contains("Alice"));
    assert!(result.contains("Bob"));
}

#[test]
fn test_encode_null_uncompressed() {
    let opts = NeonEncodeOptions { compress_nulls: false, ..Default::default() };
    assert_eq!(encode(&Value::Null, Some(opts)).unwrap(), "null");
}

#[test]
fn test_encode_boolean_uncompressed() {
    let opts = NeonEncodeOptions { compress_booleans: false, ..Default::default() };
    assert_eq!(encode(&Value::Bool(true), Some(opts.clone())).unwrap(), "true");
    assert_eq!(encode(&Value::Bool(false), Some(opts)).unwrap(), "false");
}

#[test]
fn test_encode_number_magnitudes() {
    assert_eq!(encode(&num(1_000_000_000), None).unwrap(), "1B");
    assert_eq!(encode(&num(1_000_000_000_000), None).unwrap(), "1T");
    assert_eq!(
        encode(&Value::Num(Number { neg: false, mant: 5, scale: 1 }), None).unwrap(),
        ".5"
    );
    assert_eq!(
        encode(&Value::Num(Number { neg: true, mant: 5, scale: 1 }), None).unwrap(),
        "-.5"
    );
    assert_eq!(encode(&num(-1), None).unwrap(), "-1");
    assert_eq!(encode(&num(0), None).unwrap(), "0");
}

#[test]
fn test_encode_number_rounding() {
    // inexact magnitudes round half-up to tenths and lose precision
    assert_eq!(encode(&num(95001), None).unwrap(), "95.0K");
    assert_eq!(encode(&num(1_250_000), None).unwrap(), "1.3M");
}

#[test]
fn test_encode_string_quoting() {
    assert_eq!(encode(&s(""), None).unwrap(), "\"\"");
    assert_eq!(encode(&s("a:b"), None).unwrap(), "\"a:b\"");
    assert_eq!(encode(&s("a\"b"), None).unwrap(), "\"a\\\"b\"");
    assert_eq!(encode(&s("a\\b"), None).unwrap(), "\"a\\\\b\"");
    assert_eq!(encode(&s("a\nb"), None).unwrap(), "\"a\\nb\"");
    assert_eq!(encode(&s("a\rb"), None).unwrap(), "\"a\\rb\"");
    assert_eq!(encode(&s("a\tb"), None).unwrap(), "\"a\\tb\"");
    assert_eq!(encode(&s(" x"), None).unwrap(), "\" x\"");
    assert_eq!(encode(&s("x "), None).unwrap(), "\"x \"");
    assert_eq!(encode(&s("T"), None).unwrap(), "\"T\"");
    assert_eq!(encode(&s("F"), None).unwrap(), "\"F\"");
    assert_eq!(encode(&s("N"), None).unwrap(), "\"N\"");
    assert_eq!(encode(&s("95K"), None).unwrap(), "\"95K\"");
    assert_eq!(encode(&s("-5"), None).unwrap(), "\"-5\"");
    assert_eq!(encode(&s("3.14"), None).unwrap(), "\"3.14\"");
    assert_eq!(encode(&s("#tag"), None).unwrap(), "\"#tag\"");
    assert_eq!(encode(&s("@here"), None).unwrap(), "\"@here\"");
    assert_eq!(encode(&s("$ref"), None).unwrap(), "\"$ref\"");
    assert_eq!(encode(&s("~path"), None).unwrap(), "\"~path\"");
    assert_eq!(encode(&s("^up"), None).unwrap(), "\"^up\"");
    assert_eq!(encode(&s(">out"), None).unwrap(), "\">out\"");
    // not quoted: a keyword-looking word or a word with an inner space
    assert_eq!(encode(&s("Take5"), None).unwrap(), "Take5");
}

#[test]
fn test_encode_custom_delimiter() {
    let opts = NeonEncodeOptions { delimiter: ',', ..Default::default() };
    assert_eq!(encode(&s("a,b"), Some(opts.clone())).unwrap(), "\"a,b\"");
    let arr = Value::Array(vec![num(1), num(2)]);
    assert_eq!(encode(&arr, Some(opts)).unwrap(), "#2 1,2");
}

#[test]
fn test_encode_abbreviated_field() {
    let opts = NeonEncodeOptions { abbreviate_fields: true, ..Default::default() };
    let data = Value::Object(vec![(
        "department".to_string(),
        s("Engineering"),
    )]);
    assert_eq!(encode(&data, Some(opts)).unwrap(), "@dept:Engineering");
}

#[test]
fn test_encode_compact_abbreviates() {
    let data = Value::Object(vec![(
        "department".to_string(),
        s("Engineering"),
    )]);
    assert_eq!(encode_compact(&data).unwrap(), "@dept:Engineering");
}

#[test]
fn test_encode_list_array() {
    let data = Value::Array(vec![num(1), Value::Array(vec![num(2)])]);
    assert_eq!(encode(&data, None).unwrap(), "#2\n  - 1\n  - #1 2");
}

#[test]
fn test_encode_nested_object() {
    let data = Value::Object(vec![
        (
            "a".to_string(),
            Value::Object(vec![("b".to_string(), num(1))]),
        ),
        ("c".to_string(), num(2)),
    ]);
    assert_eq!(encode(&data, None).unwrap(), "@a:{b:1} c:2");
}

#[test]
fn test_encode_empty_containers() {
    assert_eq!(encode(&Value::Array(vec![]), None).unwrap(), "#0");
    assert_eq!(encode(&Value::Object(vec![]), None).unwrap(), "@");
}

#[test]
fn test_encoder_stats() {
    let mut enc = NeonEncoder::new(None);
    let text = enc.encode(&num(95000)).unwrap();
    assert_eq!(text, "95K");
    assert_eq!(enc.get_stats().output_size, 3);
    assert_eq!(enc.get_stats().output_tokens, 0);
}
