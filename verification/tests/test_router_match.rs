use vyro_native::routing::method_table::RouteRegistry;
use vyro_native::routing::radix::RouteDefinition;

fn def(method: &str, path: &str, handler: usize) -> RouteDefinition {
    RouteDefinition { method: method.to_string(), path: path.to_string(), handler }
}

#[test]
fn matchit_params_and_wildcard_work() {
    let routes = vec![def("GET", "/users/{id}", 1), def("GET", "/static/{*wildcard}", 2)];
    let router = RouteRegistry::from_routes(routes).unwrap();

    let user = router.lookup("GET", "/users/42").unwrap();
    assert_eq!(user.handler, 1);
    assert_eq!(user.path_params.get("id").map(|s| s.as_str()), Some("42"));

    let file = router.lookup("GET", "/static/js/app.js").unwrap();
    assert_eq!(file.handler, 2);
    assert_eq!(file.path_params.get("wildcard").map(|s| s.as_str()), Some("js/app.js"));
}

#[test]
fn parameter_does_not_match_an_empty_segment() {
    let routes = vec![def("GET", "/users/{id}", 1)];
    let router = RouteRegistry::from_routes(routes).unwrap();
    assert!(router.lookup("GET", "/users/").is_none());
    assert!(router.lookup("GET", "/users").is_none());
}

#[test]
fn catch_all_needs_a_non_empty_remainder() {
    let routes = vec![def("GET", "/static/{*rest}", 1)];
    let router = RouteRegistry::from_routes(routes).unwrap();
    assert!(router.lookup("GET", "/static").is_none());
    assert!(router.lookup("GET", "/static/").is_none());
    assert_eq!(
        router.lookup("GET", "/static/a").unwrap().path_params.get("rest").map(|s| s.as_str()),
        Some("a")
    );
}

#[test]
fn root_and_trailing_slash_are_distinct() {
    let routes = vec![def("GET", "/", 1), def("GET", "/a", 2), def("GET", "/a/", 3)];
    let router = RouteRegistry::from_routes(routes).unwrap();
    assert_eq!(router.lookup("GET", "/").unwrap().handler, 1);
    assert_eq!(router.lookup("GET", "/a").unwrap().handler, 2);
    assert_eq!(router.lookup("GET", "/a/").unwrap().handler, 3);
}
