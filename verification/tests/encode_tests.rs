use jsonbee::decode::bencode_to_json;
use jsonbee::encode::{encode_bencode, EncodeError};
use jsonbee::value::Value;

fn st(x: &str) -> Value {
    Value::Str(x.to_string())
}

#[test]
fn test_encode_integer() {
    let value = Value::Int(42);
    let expected = "i42e";
    assert_eq!(encode_bencode(&value).unwrap(), expected);
}

#[test]
fn test_encode_string() {
    let value = st("hello");
    let expected = "5:hello";
    assert_eq!(encode_bencode(&value).unwrap(), expected);
}

#[test]
fn test_encode_list() {
    let value = Value::Arr(vec![Value::Int(1), Value::Int(2), Value::Int(3)]);
    let expected = "li1ei2ei3ee";
    assert_eq!(encode_bencode(&value).unwrap(), expected);
}

#[test]
fn test_encode_dict() {
    let value = Value::Obj(vec![
        ("cat".to_string(), st("mew")),
        ("dog".to_string(), st("woof")),
    ]);
    let expected = "d3:cat3:mew3:dog4:woofe";
    assert_eq!(encode_bencode(&value).unwrap(), expected);
}

#[test]
fn test_encode_json() {
    let value = Value::Obj(vec![
        ("name".to_string(), st("John")),
        ("age".to_string(), Value::Int(30)),
    ]);
    let expected = "d3:agei30e4:name4:Johne";
    assert_eq!(encode_bencode(&value).unwrap(), expected);
}

#[test]
fn test_encode_empty_list() {
    assert_eq!(encode_bencode(&Value::Arr(vec![])).unwrap(), "le");
}

#[test]
fn test_encode_empty_dict() {
    assert_eq!(encode_bencode(&Value::Obj(vec![])).unwrap(), "de");
}

#[test]
fn test_encode_empty_string() {
    assert_eq!(encode_bencode(&st("")).unwrap(), "0:");
}

#[test]
fn test_encode_negative_and_extreme_integers() {
    assert_eq!(encode_bencode(&Value::Int(-42)).unwrap(), "i-42e");
    assert_eq!(encode_bencode(&Value::Int(0)).unwrap(), "i0e");
    assert_eq!(
        encode_bencode(&Value::Int(i64::MIN)).unwrap(),
        "i-9223372036854775808e"
    );
    assert_eq!(
        encode_bencode(&Value::Int(i64::MAX)).unwrap(),
        "i9223372036854775807e"
    );
}

#[test]
fn test_encode_null_is_unsupported() {
    assert_eq!(
        encode_bencode(&Value::Null).unwrap_err(),
        EncodeError::UnsupportedValue
    );
}

#[test]
fn test_encode_nested_bool_is_unsupported() {
    let value = Value::Arr(vec![Value::Int(1), Value::Bool(true)]);
    assert_eq!(
        encode_bencode(&value).unwrap_err(),
        EncodeError::UnsupportedValue
    );
    assert_eq!(encode_bencode(&value).unwrap_err().message(), "Unsupported value");
}

#[test]
fn test_encode_deterministic() {
    let make = || {
        Value::Obj(vec![
            ("b".to_string(), Value::Arr(vec![Value::Int(2)])),
            ("a".to_string(), st("x")),
        ])
    };
    let first = encode_bencode(&make()).unwrap();
    let second = encode_bencode(&make()).unwrap();
    assert_eq!(first, second);
    assert_eq!(first, "d1:a1:x1:bli2eee");
}

#[test]
fn test_encode_key_order_independent() {
    let one = Value::Obj(vec![
        ("a".to_string(), Value::Int(1)),
        ("b".to_string(), Value::Int(2)),
    ]);
    let other = Value::Obj(vec![
        ("b".to_string(), Value::Int(2)),
        ("a".to_string(), Value::Int(1)),
    ]);
    assert_eq!(encode_bencode(&one).unwrap(), encode_bencode(&other).unwrap());
}

#[test]
fn test_encode_duplicate_keys_last_wins() {
    let value = Value::Obj(vec![
        ("a".to_string(), Value::Int(1)),
        ("a".to_string(), Value::Int(2)),
    ]);
    assert_eq!(encode_bencode(&value).unwrap(), "d1:ai2ee");
}

#[test]
fn test_round_trip_nested_value() {
    let value = Value::Obj(vec![
        ("cow".to_string(), Value::Obj(vec![("food".to_string(), st("milk"))])),
        ("spam".to_string(), Value::Arr(vec![Value::Int(42), st("eggs")])),
    ]);
    let encoded = encode_bencode(&value).unwrap();
    let decoded = bencode_to_json(&encoded).unwrap();
    assert_eq!(decoded, value);
}

#[test]
fn test_round_trip_sorts_keys_first() {
    let value = Value::Obj(vec![
        ("z".to_string(), Value::Int(1)),
        ("a".to_string(), Value::Int(2)),
    ]);
    let canonical = Value::Obj(vec![
        ("a".to_string(), Value::Int(2)),
        ("z".to_string(), Value::Int(1)),
    ]);
    let encoded = encode_bencode(&value).unwrap();
    assert_eq!(bencode_to_json(&encoded).unwrap(), canonical);
}
