//! Round-trip and end-to-end format tests.

use neon::{decode, encode};
use neon::number::{compress_number, expand_number};
use neon::Number;
use neon::Value;

fn num(i: i64) -> Value {
    Value::Num(Number::from_i64(i))
}

fn s(t: &str) -> Value {
    Value::Str(t.to_string())
}

fn round_trip(v: &Value) -> Value {
    let text = encode(v, None).unwrap();
    decode(&text, None).unwrap()
}

#[test]
fn test_round_trip_scalars() {
    // abbreviating literals, numbers and bare strings loses nothing
    // for these scalars
    let scalars = vec![
        Value::Null,
        Value::Bool(true),
        Value::Bool(false),
        num(0),
        num(1),
        num(42),
        Value::Num(Number { neg: false, mant: 314, scale: 2 }),
        s(""),
        s("hello"),
        s("a b"),
    ];
    for v in scalars {
        assert_eq!(round_trip(&v), v, "round trip of {:?}", v);
    }
}

#[test]
fn test_round_trip_primitive_array() {
    let v = Value::Array(vec![num(1), num(2), num(3)]);
    let text = encode(&v, None).unwrap();
    assert_eq!(text, "#3 1 2 3");
    assert_eq!(decode(&text, None).unwrap(), v);
}

#[test]
fn test_round_trip_homogeneous_rows() {
    let v = Value::Array(vec![
        Value::Object(vec![("x".to_string(), num(1)), ("y".to_string(), num(2))]),
        Value::Object(vec![("x".to_string(), num(3)), ("y".to_string(), num(4))]),
    ]);
    assert_eq!(round_trip(&v), v);
}

#[test]
fn test_round_trip_underscored_string() {
    let text = encode(&s("hello world"), None).unwrap();
    assert_eq!(text, "hello_world");
    assert_eq!(decode(&text, None).unwrap(), s("hello world"));
}

#[test]
fn test_users_end_to_end() {
    let users = Value::Object(vec![(
        "users".to_string(),
        Value::Array(vec![
            Value::Object(vec![
                ("id".to_string(), num(1)),
                ("name".to_string(), s("Alice")),
                ("active".to_string(), Value::Bool(true)),
            ]),
            Value::Object(vec![
                ("id".to_string(), num(2)),
                ("name".to_string(), s("Bob")),
                ("active".to_string(), Value::Bool(false)),
            ]),
        ]),
    )]);
    let text = encode(&users, None).unwrap();
    assert_eq!(text, "users#2^id,name,active\n  1 Alice T\n  2 Bob F");
    assert_eq!(decode(&text, None).unwrap(), users);
}

#[test]
fn test_encode_twice_is_stable() {
    let values = vec![
        Value::Null,
        num(95000),
        s("hello world"),
        Value::Array(vec![num(1), num(2), num(3)]),
        Value::Object(vec![
            ("id".to_string(), num(1)),
            ("name".to_string(), s("Alice")),
        ]),
    ];
    for v in values {
        let once = encode(&v, None).unwrap();
        let again = encode(&decode(&once, None).unwrap(), None).unwrap();
        assert_eq!(once, again, "stability of {:?}", v);
    }
}

#[test]
fn test_abbreviation_tables_are_inverse() {
    let fwd = neon::get_abbreviations();
    let rev = neon::get_expansions();
    assert_eq!(fwd.len(), rev.len());
    for (long, short) in &fwd {
        let back = rev
            .iter()
            .find(|(k, _)| k == short)
            .map(|(_, v)| v.clone())
            .unwrap();
        assert_eq!(&back, long);
    }
}

#[test]
fn test_number_expansion() {
    assert_eq!(expand_number("95K"), Number { neg: false, mant: 95000, scale: 0 });
    assert_eq!(expand_number("2.5M"), Number { neg: false, mant: 2500000, scale: 0 });
    assert_eq!(expand_number("-.5"), Number { neg: true, mant: 5, scale: 1 });
    assert_eq!(expand_number("1T"), Number { neg: false, mant: 1_000_000_000_000, scale: 0 });
    assert_eq!(expand_number("oops"), Number { neg: false, mant: 0, scale: 0 });
    assert_eq!(expand_number("2.50"), Number { neg: false, mant: 25, scale: 1 });
}

#[test]
fn test_number_compression() {
    assert_eq!(compress_number(&Number::from_i64(95000), true), "95K");
    assert_eq!(compress_number(&Number::from_i64(95000), false), "95000");
    assert_eq!(
        compress_number(&Number { neg: false, mant: 314, scale: 2 }, true),
        "3.14"
    );
    assert_eq!(
        compress_number(&Number { neg: false, mant: 5, scale: 3 }, false),
        "0.005"
    );
}

#[test]
fn test_reserved_sigils_stay_quoted() {
    // a reserved sigil in text survives a round trip through quoting
    let v = s("$ref");
    let text = encode(&v, None).unwrap();
    assert_eq!(text, "\"$ref\"");
    assert_eq!(decode(&text, None).unwrap(), v);
}

#[test]
fn test_duplicate_keys_overwrite() {
    let result = decode("@a:1 a:2", None).unwrap();
    assert_eq!(result, Value::Object(vec![("a".to_string(), num(2))]));
}
