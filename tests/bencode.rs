use torrent::bencode::{decode, to_vec_u8, CodecError, Value};
use torrent::display::{decode_bencoded_value, to_string};

fn entry(key: &str, value: Value) -> (Vec<u8>, Value) {
    (key.as_bytes().to_vec(), value)
}

#[test]
fn decode_int_success() {
    let buffer = "i42e";
    assert_eq!(decode(buffer.as_bytes()).unwrap(), Value::Int(42));
}

#[test]
fn decode_str_success() {
    let buffer = "4:spam";
    assert_eq!(
        decode(buffer.as_bytes()).unwrap(),
        Value::Str("spam".to_owned().into())
    );
}

#[test]
fn decode_malformed_int() {
    let buffer = "i42";
    assert!(
        decode(buffer.as_bytes()).is_err(),
        "Expected error for malformed int"
    );

    let buffer = "ie";
    assert!(
        decode(buffer.as_bytes()).is_err(),
        "Expected error for missing integer value"
    );
}

#[test]
fn decode_malformed_str() {
    let buffer = "4spam";
    assert!(
        decode(buffer.as_bytes()).is_err(),
        "Expected error for malformed string"
    );

    let buffer = ":spam";
    assert!(
        decode(buffer.as_bytes()).is_err(),
        "Expected error for missing string length"
    );
}

#[test]
fn decode_malformed_dict() {
    let buffer = "d3:bar4:spam";
    assert!(
        decode(buffer.as_bytes()).is_err(),
        "Expected error for malformed dict"
    );

    let buffer = "d3:bar4:spam3:foo";
    assert!(
        decode(buffer.as_bytes()).is_err(),
        "Expected error for key without value"
    );
}

#[test]
fn decode_nested_list() {
    let buffer = "lli42eei43eee";
    assert_eq!(
        decode(buffer.as_bytes()).unwrap(),
        Value::List(vec![Value::List(vec![Value::Int(42)]), Value::Int(43)])
    );
}

#[test]
fn decode_nested_dict() {
    let buffer = "d4:dictd3:keyi42eee";
    let inner_dict = vec![entry("key", Value::Int(42))];
    let expected_dict = vec![entry("dict", Value::Dict(inner_dict))];
    assert_eq!(
        decode(buffer.as_bytes()).unwrap(),
        Value::Dict(expected_dict)
    );
}

#[test]
fn decode_nested_dict_in_list() {
    let buffer = "li24ed3:keyli3123e3:heli23e3:assi1337eeei23ed3:assi23eee";
    let decoded = decode(buffer.as_bytes()).unwrap();
    let mut vec1: Vec<Value> = Vec::new();
    vec1.push(Value::Int(3123));
    vec1.push(Value::Str("hel".to_owned().into()));
    vec1.push(Value::Int(23));
    vec1.push(Value::Str("ass".to_owned().into()));
    vec1.push(Value::Int(1337));
    let d1 = vec![entry("key", Value::List(vec1))];
    let mut outer_vec: Vec<Value> = Vec::new();
    outer_vec.push(Value::Int(24));
    outer_vec.push(Value::Dict(d1));
    outer_vec.push(Value::Int(23));
    outer_vec.push(Value::Dict(vec![entry("ass", Value::Int(23))]));
    let expected = Value::List(outer_vec);
    assert_eq!(decoded, expected);
}

#[test]
fn malformed_inputs_give_their_errors() {
    assert_eq!(decode(b"i42"), Err(CodecError::MalformedInteger));
    assert_eq!(decode(b"ie"), Err(CodecError::MalformedInteger));
    assert_eq!(decode(b"i-e"), Err(CodecError::MalformedInteger));
    assert_eq!(decode(b"i4x2e"), Err(CodecError::MalformedInteger));
    assert_eq!(decode(b"i9223372036854775808e"), Err(CodecError::MalformedInteger));
    assert_eq!(decode(b"4spam"), Err(CodecError::MalformedString));
    assert_eq!(decode(b"5:spam"), Err(CodecError::MalformedString));
    assert_eq!(decode(b":spam"), Err(CodecError::UnrecognizedTag));
    assert_eq!(decode(b"li1e"), Err(CodecError::UnterminatedList));
    assert_eq!(decode(b"d3:bar4:spam"), Err(CodecError::UnterminatedMap));
    assert_eq!(decode(b"d3:bar4:spam3:foo"), Err(CodecError::UnterminatedMap));
    assert_eq!(decode(b"d3:fooe"), Err(CodecError::UnterminatedMap));
    assert_eq!(decode(b"di1ei2ee"), Err(CodecError::InvalidMapKey));
    assert_eq!(decode(b"d1:\xffi1ee"), Err(CodecError::InvalidMapKey));
    assert_eq!(decode(b"x"), Err(CodecError::UnrecognizedTag));
    assert_eq!(decode(b""), Err(CodecError::UnrecognizedTag));
}

#[test]
fn integers_at_the_edges() {
    assert_eq!(decode(b"i-9223372036854775808e"), Ok(Value::Int(i64::MIN)));
    assert_eq!(decode(b"i9223372036854775807e"), Ok(Value::Int(i64::MAX)));
    assert_eq!(decode(b"i+7e"), Ok(Value::Int(7)));
    assert_eq!(decode(b"i-0e"), Ok(Value::Int(0)));
    assert_eq!(decode(b"0:"), Ok(Value::Str(vec![])));
    assert_eq!(decode(b"le"), Ok(Value::List(vec![])));
    assert_eq!(decode(b"de"), Ok(Value::Dict(vec![])));
    assert_eq!(decode(b"i1etrailing"), Ok(Value::Int(1)));
}

#[test]
fn map_keys_come_out_sorted_and_last_wins() {
    let v = decode(b"d1:bi1e1:ai2e1:bi3ee").unwrap();
    assert_eq!(
        v,
        Value::Dict(vec![entry("a", Value::Int(2)), entry("b", Value::Int(3))])
    );
}

#[test]
fn encode_sorts_map_keys() {
    let v = Value::Dict(vec![entry("b", Value::Int(1)), entry("a", Value::Int(2))]);
    assert_eq!(to_vec_u8(&v).unwrap(), b"d1:ai2e1:bi1ee".to_vec());
}

#[test]
fn encode_each_kind() {
    assert_eq!(to_vec_u8(&Value::Int(-42)).unwrap(), b"i-42e".to_vec());
    assert_eq!(to_vec_u8(&Value::Int(i64::MIN)).unwrap(), b"i-9223372036854775808e".to_vec());
    assert_eq!(to_vec_u8(&Value::Str(b"spam".to_vec())).unwrap(), b"4:spam".to_vec());
    assert_eq!(
        to_vec_u8(&Value::List(vec![Value::Int(1), Value::Str(vec![])])).unwrap(),
        b"li1e0:e".to_vec()
    );
}

#[test]
fn decode_of_encode_gives_the_value_back() {
    let text = b"d8:announce3:url4:infod6:lengthi1000e4:name1:f12:piece lengthi10e6:pieces0:ee";
    let v = decode(text).unwrap();
    let bytes = to_vec_u8(&v).unwrap();
    assert_eq!(bytes, text.to_vec());
    assert_eq!(decode(&bytes).unwrap(), v);
    let w = Value::List(vec![
        Value::Int(-3),
        Value::Str(vec![0, 255, 58]),
        Value::Dict(vec![entry("k", Value::List(vec![]))]),
    ]);
    assert_eq!(decode(&to_vec_u8(&w).unwrap()).unwrap(), w);
}

#[test]
fn to_string_renders_json_like() {
    let v = decode(b"li24ed3:keyli3123e3:heli23e3:assi1337eeei23ed3:assi23eee").unwrap();
    assert_eq!(
        to_string(&v).unwrap(),
        "[24,{\"key\":[3123,\"hel\",23,\"ass\",1337]},23,{\"ass\":23}]"
    );
    let quoted = Value::Str(b"a\"b".to_vec());
    assert_eq!(to_string(&quoted).unwrap(), "\"a\\\"b\"");
    let unsorted = Value::Dict(vec![entry("b", Value::Int(1)), entry("a", Value::Int(-2))]);
    assert_eq!(to_string(&unsorted).unwrap(), "{\"a\":-2,\"b\":1}");
}

#[test]
fn to_string_rejects_invalid_utf8() {
    let v = Value::List(vec![Value::Int(1), Value::Str(vec![0xff])]);
    assert_eq!(to_string(&v), Err(CodecError::InvalidUtf8));
}

#[test]
fn decode_bencoded_value_renders() {
    assert_eq!(decode_bencoded_value("5:hello").unwrap(), "\"hello\"");
    assert_eq!(decode_bencoded_value("i-52e").unwrap(), "-52");
    assert_eq!(decode_bencoded_value("i52"), Err(CodecError::MalformedInteger));
}
