use vyro_native::serialization::json::{to_json_bytes, JsonValue};

#[test]
fn scalars_serialize_exactly() {
    assert_eq!(to_json_bytes(&JsonValue::Null), b"null".to_vec());
    assert_eq!(to_json_bytes(&JsonValue::Bool(true)), b"true".to_vec());
    assert_eq!(to_json_bytes(&JsonValue::Bool(false)), b"false".to_vec());
    assert_eq!(to_json_bytes(&JsonValue::Int(0)), b"0".to_vec());
    assert_eq!(to_json_bytes(&JsonValue::Int(-42)), b"-42".to_vec());
    assert_eq!(
        to_json_bytes(&JsonValue::Int(i64::MIN)),
        b"-9223372036854775808".to_vec()
    );
    assert_eq!(
        to_json_bytes(&JsonValue::Str("hi".to_string())),
        b"\"hi\"".to_vec()
    );
}

#[test]
fn strings_are_escaped() {
    let s = JsonValue::Str("a\"b\\c\nd".to_string());
    assert_eq!(to_json_bytes(&s), b"\"a\\\"b\\\\c\\u000ad\"".to_vec());
}

#[test]
fn nested_values_serialize_exactly() {
    let v = JsonValue::Obj(vec![
        ("a".to_string(), JsonValue::Str("b".to_string())),
        ("n".to_string(), JsonValue::Int(5)),
        (
            "xs".to_string(),
            JsonValue::Arr(vec![JsonValue::Int(1), JsonValue::Null, JsonValue::Bool(true)]),
        ),
    ]);
    assert_eq!(
        String::from_utf8(to_json_bytes(&v)).unwrap(),
        "{\"a\":\"b\",\"n\":5,\"xs\":[1,null,true]}"
    );
}

#[test]
fn structured_mapping_round_trips() {
    let v = JsonValue::Obj(vec![
        ("name".to_string(), JsonValue::Str("caf\u{e9} \"quoted\"".to_string())),
        ("count".to_string(), JsonValue::Int(-3)),
        ("flag".to_string(), JsonValue::Bool(false)),
        ("missing".to_string(), JsonValue::Null),
    ]);
    let bytes = to_json_bytes(&v);
    let decoded: serde_json::Value = serde_json::from_slice(&bytes).expect("valid JSON");
    let obj = decoded.as_object().expect("a mapping");
    assert_eq!(obj.len(), 4);
    assert_eq!(obj["name"], serde_json::Value::String("caf\u{e9} \"quoted\"".to_string()));
    assert_eq!(obj["count"], serde_json::Value::from(-3i64));
    assert_eq!(obj["flag"], serde_json::Value::Bool(false));
    assert_eq!(obj["missing"], serde_json::Value::Null);
}
