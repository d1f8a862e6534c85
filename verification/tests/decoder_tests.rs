//! Decoder tests: literals, numbers, strings, arrays, objects,
//! whitespace handling, depth limits and error positions.

use neon::decode;
use neon::Number;
use neon::Value;
use neon::{NeonDecodeOptions, NeonError};

fn num(i: i64) -> Value {
    Value::Num(Number::from_i64(i))
}

#[test]
fn test_decode_null() {
    let result = decode("N", None).unwrap();
    assert_eq!(result, Value::Null);
}

#[test]
fn test_decode_boolean() {
    assert_eq!(decode("T", None).unwrap(), Value::Bool(true));
    assert_eq!(decode("F", None).unwrap(), Value::Bool(false));
}

#[test]
fn test_decode_number() {
    assert_eq!(decode("42", None).unwrap(), num(42));
    assert_eq!(decode("95K", None).unwrap(), num(95000));
}

#[test]
fn test_decode_string() {
    assert_eq!(
        decode("hello", None).unwrap(),
        Value::Str("hello".to_string())
    );
    assert_eq!(
        decode("hello_world", None).unwrap(),
        Value::Str("hello world".to_string())
    );
}

#[test]
fn test_decode_array() {
    let result = decode("#3 1 2 3", None).unwrap();
    let arr = match result {
        Value::Array(a) => a,
        other => panic!("expected an array, got {:?}", other),
    };
    assert_eq!(arr.len(), 3);
}

#[test]
fn test_decode_keywords() {
    assert_eq!(decode("null", None).unwrap(), Value::Null);
    assert_eq!(decode("true", None).unwrap(), Value::Bool(true));
    assert_eq!(decode("false", None).unwrap(), Value::Bool(false));
}

#[test]
fn test_decode_empty_input() {
    assert_eq!(decode("", None).unwrap(), Value::Null);
    assert_eq!(decode("   \n  ", None).unwrap(), Value::Null);
}

#[test]
fn test_decode_unicode_whitespace_only() {
    // vertical tab has the Unicode White_Space property
    assert_eq!(decode("\u{000B}", None).unwrap(), Value::Null);
}

#[test]
fn test_decode_fractions() {
    assert_eq!(decode(".5", None).unwrap(), Value::Num(Number { neg: false, mant: 5, scale: 1 }));
    assert_eq!(decode("2.5M", None).unwrap(), num(2500000));
    assert_eq!(decode("3.14", None).unwrap(), Value::Num(Number { neg: false, mant: 314, scale: 2 }));
}

#[test]
fn test_decode_quoted_string() {
    assert_eq!(decode("\"a b\"", None).unwrap(), Value::Str("a b".to_string()));
    assert_eq!(decode("\"\"", None).unwrap(), Value::Str(String::new()));
    assert_eq!(
        decode("\"x\\n\\t\\\\\\\"y\"", None).unwrap(),
        Value::Str("x\n\t\\\"y".to_string())
    );
}

#[test]
fn test_decode_object() {
    let result = decode("@id:1 name:Alice", None).unwrap();
    let expected = Value::Object(vec![
        ("id".to_string(), num(1)),
        ("name".to_string(), Value::Str("Alice".to_string())),
    ]);
    assert_eq!(result, expected);
}

#[test]
fn test_decode_empty_object() {
    assert_eq!(decode("@", None).unwrap(), Value::Object(vec![]));
}

#[test]
fn test_decode_abbreviated_key() {
    let result = decode("@dept:Engineering", None).unwrap();
    let expected = Value::Object(vec![(
        "department".to_string(),
        Value::Str("Engineering".to_string()),
    )]);
    assert_eq!(result, expected);
}

#[test]
fn test_decode_schema_rows() {
    let result = decode("#2^a,b\n  1 2\n  3 4", None).unwrap();
    let expected = Value::Array(vec![
        Value::Object(vec![("a".to_string(), num(1)), ("b".to_string(), num(2))]),
        Value::Object(vec![("a".to_string(), num(3)), ("b".to_string(), num(4))]),
    ]);
    assert_eq!(result, expected);
}

#[test]
fn test_decode_named_array() {
    let result = decode("users#2^id,name\n  1 Alice\n  2 Bob", None).unwrap();
    let expected = Value::Object(vec![(
        "users".to_string(),
        Value::Array(vec![
            Value::Object(vec![
                ("id".to_string(), num(1)),
                ("name".to_string(), Value::Str("Alice".to_string())),
            ]),
            Value::Object(vec![
                ("id".to_string(), num(2)),
                ("name".to_string(), Value::Str("Bob".to_string())),
            ]),
        ]),
    )]);
    assert_eq!(result, expected);
}

#[test]
fn test_decode_list_rows() {
    let result = decode("#2\n  - 1\n  - hello", None).unwrap();
    let expected = Value::Array(vec![num(1), Value::Str("hello".to_string())]);
    assert_eq!(result, expected);
}

#[test]
fn test_decode_max_depth() {
    let opts = NeonDecodeOptions { strict: true, expand_abbreviations: true, max_depth: 2 };
    let err = decode("#1 #1 #1 1", Some(opts)).unwrap_err();
    match err {
        NeonError::MaxDepth { depth } => assert_eq!(depth, 2),
        other => panic!("expected a depth error, got {:?}", other),
    }
}

#[test]
fn test_decode_missing_array_length() {
    let err = decode("# x", None).unwrap_err();
    match err {
        NeonError::Syntax { message, .. } => assert_eq!(message, "Expected array length"),
        other => panic!("expected a syntax error, got {:?}", other),
    }
}

#[test]
fn test_decode_no_expansion_when_disabled() {
    let opts = NeonDecodeOptions { strict: true, expand_abbreviations: false, max_depth: 100 };
    let result = decode("@dept:x", Some(opts)).unwrap();
    let expected = Value::Object(vec![("dept".to_string(), Value::Str("x".to_string()))]);
    assert_eq!(result, expected);
}

#[test]
fn test_decoder_stats() {
    let mut d = neon::NeonDecoder::new(None);
    let v = d.decode("#3 1 2 3").unwrap();
    assert!(matches!(v, Value::Array(_)));
    assert_eq!(d.get_stats().input_size, 8);
}
