use jsonbee::decode::{bencode_to_json, DecodeError};
use jsonbee::value::Value;

fn s(x: &str) -> Value {
    Value::Str(x.to_string())
}

#[test]
fn test_decode_integer() {
    let input = "i42e";
    let expected = Value::Int(42);
    assert_eq!(bencode_to_json(input).unwrap(), expected);
}

#[test]
fn test_decode_negative_integer() {
    let input = "i-42e";
    let expected = Value::Int(-42);
    assert_eq!(bencode_to_json(input).unwrap(), expected);
}

#[test]
fn test_decode_string() {
    let input = "4:spam";
    let expected = s("spam");
    assert_eq!(bencode_to_json(input).unwrap(), expected);
}

#[test]
fn test_decode_empty_string() {
    let input = "0:";
    let expected = s("");
    assert_eq!(bencode_to_json(input).unwrap(), expected);
}

#[test]
fn test_decode_list() {
    let input = "li42ei-42e4:spame";
    let expected = Value::Arr(vec![Value::Int(42), Value::Int(-42), s("spam")]);
    assert_eq!(bencode_to_json(input).unwrap(), expected);
}

#[test]
fn test_decode_empty_list() {
    let input = "le";
    let expected = Value::Arr(vec![]);
    assert_eq!(bencode_to_json(input).unwrap(), expected);
}

#[test]
fn test_decode_dict() {
    let input = "d3:cow3:moo4:spam4:eggse";
    let expected = Value::Obj(vec![
        ("cow".to_string(), s("moo")),
        ("spam".to_string(), s("eggs")),
    ]);
    assert_eq!(bencode_to_json(input).unwrap(), expected);
}

#[test]
fn test_decode_empty_dict() {
    let input = "de";
    let expected = Value::Obj(vec![]);
    assert_eq!(bencode_to_json(input).unwrap(), expected);
}

#[test]
fn test_decode_complex_structure() {
    let input = "d4:spamli42ee3:cowd4:food4:milkeee";
    let expected = Value::Obj(vec![
        (
            "cow".to_string(),
            Value::Obj(vec![("food".to_string(), s("milk"))]),
        ),
        ("spam".to_string(), Value::Arr(vec![Value::Int(42)])),
    ]);
    assert_eq!(bencode_to_json(input).unwrap(), expected);
}

#[test]
fn test_decode_bencode() {
    let input = "d4:name4:John3:agei30ee";
    let expected = Value::Obj(vec![
        ("age".to_string(), Value::Int(30)),
        ("name".to_string(), s("John")),
    ]);
    assert_eq!(bencode_to_json(input).unwrap(), expected);
}

#[test]
fn test_decode_empty_input_is_eof() {
    assert_eq!(bencode_to_json("").unwrap_err(), DecodeError::UnexpectedEof);
}

#[test]
fn test_decode_bad_leading_char_is_invalid_format() {
    assert_eq!(bencode_to_json("x").unwrap_err(), DecodeError::InvalidFormat);
}

#[test]
fn test_decode_short_string_is_eof() {
    assert_eq!(bencode_to_json("5:ab").unwrap_err(), DecodeError::UnexpectedEof);
}

#[test]
fn test_decode_bad_integer_is_invalid_integer() {
    assert_eq!(bencode_to_json("ixe").unwrap_err(), DecodeError::InvalidInteger);
}

#[test]
fn test_decode_bad_length_is_invalid_length() {
    assert_eq!(bencode_to_json("5x:ab").unwrap_err(), DecodeError::InvalidLength);
}

#[test]
fn test_decode_bad_dict_key_is_invalid_format() {
    assert_eq!(bencode_to_json("di1ei2ee").unwrap_err(), DecodeError::InvalidFormat);
}

#[test]
fn test_decode_integer_missing_terminator_is_eof() {
    assert_eq!(bencode_to_json("i42").unwrap_err(), DecodeError::UnexpectedEof);
}

#[test]
fn test_decode_list_missing_terminator_is_eof() {
    assert_eq!(bencode_to_json("li42e").unwrap_err(), DecodeError::UnexpectedEof);
    assert_eq!(bencode_to_json("l").unwrap_err(), DecodeError::UnexpectedEof);
}

#[test]
fn test_decode_dict_missing_terminator_is_eof() {
    assert_eq!(
        bencode_to_json("d3:cow3:moo").unwrap_err(),
        DecodeError::UnexpectedEof
    );
    assert_eq!(bencode_to_json("d").unwrap_err(), DecodeError::UnexpectedEof);
}

#[test]
fn test_decode_string_missing_colon_is_eof() {
    assert_eq!(bencode_to_json("0").unwrap_err(), DecodeError::UnexpectedEof);
    assert_eq!(bencode_to_json("42").unwrap_err(), DecodeError::UnexpectedEof);
}

#[test]
fn test_decode_integer_bounds() {
    assert_eq!(
        bencode_to_json("i9223372036854775807e").unwrap(),
        Value::Int(i64::MAX)
    );
    assert_eq!(
        bencode_to_json("i-9223372036854775808e").unwrap(),
        Value::Int(i64::MIN)
    );
    assert_eq!(
        bencode_to_json("i9223372036854775808e").unwrap_err(),
        DecodeError::InvalidInteger
    );
}

#[test]
fn test_decode_duplicate_keys_last_wins() {
    let input = "d1:ai1e1:ai2ee";
    let expected = Value::Obj(vec![("a".to_string(), Value::Int(2))]);
    assert_eq!(bencode_to_json(input).unwrap(), expected);
}

#[test]
fn test_decode_dict_keys_come_out_sorted() {
    let input = "d1:bi2e1:ai1ee";
    let expected = Value::Obj(vec![
        ("a".to_string(), Value::Int(1)),
        ("b".to_string(), Value::Int(2)),
    ]);
    assert_eq!(bencode_to_json(input).unwrap(), expected);
}

#[test]
fn test_decode_trailing_input_ignored() {
    assert_eq!(bencode_to_json("i42exxx").unwrap(), Value::Int(42));
}

#[test]
fn test_decode_error_messages() {
    assert_eq!(
        bencode_to_json("").unwrap_err().message(),
        "Unexpected end of input"
    );
    assert_eq!(
        bencode_to_json("x").unwrap_err().message(),
        "Invalid Bencode format"
    );
    assert_eq!(
        bencode_to_json("ixe").unwrap_err().message(),
        "Invalid integer"
    );
    assert_eq!(
        bencode_to_json("5x:a").unwrap_err().message(),
        "Invalid string length"
    );
}
