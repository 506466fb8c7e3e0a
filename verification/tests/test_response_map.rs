use vyro_native::errors::core_error::CoreError;
use vyro_native::http::response::ResponseBody;
use vyro_native::http::response::OutgoingResponse;
use vyro_native::response_map::{py_to_response, tuple_to_response, HandlerResult, HandlerValue};
use vyro_native::serialization::json::JsonValue;

#[test]
fn response_default_is_200() {
    let resp = OutgoingResponse::default();
    assert_eq!(resp.status, 200);
}

#[test]
fn pathlib_body_maps_to_file_response() {
    let response = py_to_response(HandlerResult::Single(HandlerValue::FilePath(
        "README.md".to_string(),
    )))
    .expect("response mapping should succeed");
    match response.body {
        ResponseBody::File(path) => assert!(path.ends_with("README.md")),
        ResponseBody::Bytes(_) => panic!("expected file response body"),
    }
}

#[test]
fn positional_result_sets_status_and_headers() {
    let items = vec![
        HandlerValue::Text("hello".to_string()),
        HandlerValue::Structured(JsonValue::Int(201)),
        HandlerValue::Structured(JsonValue::Obj(vec![(
            "x-trace".to_string(),
            JsonValue::Str("abc".to_string()),
        )])),
    ];
    let resp = tuple_to_response(items).expect("tuple should map");
    assert_eq!(resp.status, 201);
    assert_eq!(resp.headers.get("x-trace").map(|s| s.as_str()), Some("abc"));
    assert_eq!(
        resp.headers.get("content-type").map(|s| s.as_str()),
        Some("text/plain; charset=utf-8")
    );
    match resp.body {
        ResponseBody::Bytes(b) => assert_eq!(b, b"hello".to_vec()),
        ResponseBody::File(_) => panic!("expected byte body"),
    }
}

#[test]
fn positional_result_with_four_elements_is_rejected() {
    let items = vec![
        HandlerValue::Text("a".to_string()),
        HandlerValue::Structured(JsonValue::Int(200)),
        HandlerValue::Structured(JsonValue::Obj(vec![])),
        HandlerValue::Null,
    ];
    assert!(matches!(tuple_to_response(items), Err(CoreError::ResponseBuild(_))));
}

#[test]
fn positional_status_must_be_an_integer() {
    let items = vec![HandlerValue::Null, HandlerValue::Text("201".to_string())];
    assert!(matches!(tuple_to_response(items), Err(CoreError::Handler(_))));
}

#[test]
fn positional_headers_must_be_a_mapping() {
    let items = vec![
        HandlerValue::Null,
        HandlerValue::Structured(JsonValue::Int(200)),
        HandlerValue::Text("not a dict".to_string()),
    ];
    assert!(matches!(tuple_to_response(items), Err(CoreError::ResponseBuild(_))));
}

#[test]
fn explicit_content_type_is_not_overridden() {
    let items = vec![
        HandlerValue::Text("x".to_string()),
        HandlerValue::Structured(JsonValue::Int(200)),
        HandlerValue::Structured(JsonValue::Obj(vec![(
            "Content-Type".to_string(),
            JsonValue::Str("text/html".to_string()),
        )])),
    ];
    let resp = tuple_to_response(items).expect("tuple should map");
    assert_eq!(resp.headers.get("content-type").map(|s| s.as_str()), Some("text/html"));
    assert_eq!(resp.headers.len(), 1);
}

#[test]
fn none_body_is_empty_json() {
    let resp = py_to_response(HandlerResult::Single(HandlerValue::Null)).unwrap();
    assert_eq!(resp.status, 200);
    assert_eq!(
        resp.headers.get("content-type").map(|s| s.as_str()),
        Some("application/json; charset=utf-8")
    );
    match resp.body {
        ResponseBody::Bytes(b) => assert!(b.is_empty()),
        ResponseBody::File(_) => panic!("expected byte body"),
    }
}

#[test]
fn raw_bytes_get_no_content_type() {
    let resp =
        py_to_response(HandlerResult::Single(HandlerValue::Bytes(vec![1, 2, 3]))).unwrap();
    assert!(resp.headers.get("content-type").is_none());
    match resp.body {
        ResponseBody::Bytes(b) => assert_eq!(b, vec![1, 2, 3]),
        ResponseBody::File(_) => panic!("expected byte body"),
    }
}

#[test]
fn text_body_is_plain_text() {
    let resp =
        py_to_response(HandlerResult::Single(HandlerValue::Text("hi".to_string()))).unwrap();
    assert_eq!(
        resp.headers.get("content-type").map(|s| s.as_str()),
        Some("text/plain; charset=utf-8")
    );
}
