use vyro_native::errors::core_error::CoreError;
use vyro_native::http::response::{OutgoingResponse, ResponseBody};
use vyro_native::http::server::{
    internal_error_response, method_not_allowed_response, not_found_response,
    response_or_internal_error, simple_response, to_wire_response,
};
use vyro_native::http::status::{
    internal_error_status, method_not_allowed_status, not_found_status,
};
use vyro_native::http::server::{resolve_route, RouteOutcome};
use vyro_native::routing::method_table::RouteRegistry;
use vyro_native::routing::radix::RouteDefinition;
use vyro_native::strmap::StringMap;

#[test]
fn status_code_constants_are_correct() {
    assert_eq!(not_found_status(), 404);
    assert_eq!(method_not_allowed_status(), 405);
}

#[test]
fn fallback_responses_are_exact() {
    let nf = not_found_response();
    assert_eq!(nf.status, 404);
    assert_eq!(nf.headers.get("content-type").map(|s| s.as_str()), Some("text/plain; charset=utf-8"));
    assert!(matches!(nf.body, ResponseBody::Bytes(b) if b == b"Not Found".to_vec()));

    let mna = method_not_allowed_response();
    assert_eq!(mna.status, 405);
    assert!(matches!(mna.body, ResponseBody::Bytes(b) if b == b"Method Not Allowed".to_vec()));

    let ie = internal_error_response();
    assert_eq!(ie.status, internal_error_status());
    assert!(matches!(ie.body, ResponseBody::Bytes(b) if b == b"Internal Server Error".to_vec()));
}

#[test]
fn a_fault_becomes_the_500_fallback() {
    let r = response_or_internal_error(Err(CoreError::Handler("boom".to_string())));
    assert_eq!(r.status, 500);
    assert!(matches!(r.body, ResponseBody::Bytes(b) if b == b"Internal Server Error".to_vec()));

    let ok = simple_response(204, Vec::new(), "text/plain");
    let r = response_or_internal_error(Ok(ok));
    assert_eq!(r.status, 204);
}

#[test]
fn wire_response_validates_status_and_headers() {
    let mut headers = StringMap::new();
    headers.insert("X-Trace".to_string(), "abc".to_string());
    let out = OutgoingResponse { status: 201, headers, body: ResponseBody::Bytes(vec![]) };
    let wire = to_wire_response(out).expect("valid response");
    assert_eq!(wire.status, 201);
    assert_eq!(wire.headers.len(), 1);
    assert_eq!(wire.headers[0].0.name, "x-trace");
    assert_eq!(wire.headers[0].1.value, "abc");

    let out = OutgoingResponse {
        status: 99,
        headers: StringMap::new(),
        body: ResponseBody::Bytes(vec![]),
    };
    assert!(matches!(to_wire_response(out), Err(CoreError::ResponseBuild(_))));

    let out = OutgoingResponse {
        status: 600,
        headers: StringMap::new(),
        body: ResponseBody::Bytes(vec![]),
    };
    assert!(matches!(to_wire_response(out), Err(CoreError::ResponseBuild(_))));

    let mut headers = StringMap::new();
    headers.insert("bad name".to_string(), "v".to_string());
    let out = OutgoingResponse { status: 200, headers, body: ResponseBody::Bytes(vec![]) };
    assert!(matches!(to_wire_response(out), Err(CoreError::ResponseBuild(_))));

    let mut headers = StringMap::new();
    headers.insert("name".to_string(), "bad\nvalue".to_string());
    let out = OutgoingResponse { status: 200, headers, body: ResponseBody::Bytes(vec![]) };
    assert!(matches!(to_wire_response(out), Err(CoreError::ResponseBuild(_))));
}

#[test]
fn resolve_route_distinguishes_the_three_outcomes() {
    let routes = vec![RouteDefinition {
        method: "POST".to_string(),
        path: "/users/{id}".to_string(),
        handler: 7,
    }];
    let registry = RouteRegistry::from_routes(routes).unwrap();

    match resolve_route(&registry, "post", "/users/42") {
        RouteOutcome::Matched(res) => {
            assert_eq!(res.handler, 7);
            assert_eq!(res.path_params.get("id").map(|s| s.as_str()), Some("42"));
        },
        _ => panic!("expected a match"),
    }
    assert!(matches!(
        resolve_route(&registry, "GET", "/users/42"),
        RouteOutcome::MethodNotAllowed
    ));
    assert!(matches!(resolve_route(&registry, "GET", "/anything"), RouteOutcome::NotFound));
}

#[test]
fn error_messages_carry_their_category() {
    assert_eq!(CoreError::Io("x".to_string()).message(), "io error: x");
    assert_eq!(CoreError::Protocol("x".to_string()).message(), "protocol error: x");
    assert_eq!(CoreError::Handler("x".to_string()).message(), "handler error: x");
    assert_eq!(CoreError::InvalidConfig("x".to_string()).message(), "invalid config: x");
    assert_eq!(CoreError::ResponseBuild("x".to_string()).message(), "response build error: x");
}
