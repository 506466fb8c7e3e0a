use vyro_native::errors::core_error::CoreError;
use vyro_native::routing::method_table::RouteRegistry;
use vyro_native::routing::radix::RouteDefinition;

fn def(method: &str, path: &str, handler: usize) -> RouteDefinition {
    RouteDefinition { method: method.to_string(), path: path.to_string(), handler }
}

#[test]
fn route_registry_lookup_normalizes_http_method() {
    let routes = vec![def("GET", "/users/{id}", 0)];

    let registry = RouteRegistry::from_routes(routes).expect("registry should build");
    let found = registry.lookup("get", "/users/42");
    assert!(found.is_some());
}

#[test]
fn every_registered_route_is_reachable() {
    let routes = vec![
        def("GET", "/", 1),
        def("GET", "/users/{id}", 2),
        def("post", "/users", 3),
        def("GET", "/static/{*path}", 4),
    ];
    let registry = RouteRegistry::from_routes(routes).expect("registry should build");

    assert_eq!(registry.lookup("GET", "/").unwrap().handler, 1);
    assert_eq!(registry.lookup("GET", "/users/77").unwrap().handler, 2);
    assert_eq!(registry.lookup("POST", "/users").unwrap().handler, 3);
    assert_eq!(registry.lookup("GET", "/static/app.css").unwrap().handler, 4);
}

#[test]
fn ambiguous_templates_fail_the_build() {
    let routes = vec![def("GET", "/users/{id}", 1), def("get", "/users/{user_id}", 2)];
    let result = RouteRegistry::from_routes(routes);
    assert!(matches!(result, Err(CoreError::InvalidConfig(_))));
}

#[test]
fn duplicate_exact_path_fails_the_build() {
    let routes = vec![def("GET", "/health", 1), def("GET", "/health", 2)];
    assert!(matches!(RouteRegistry::from_routes(routes), Err(CoreError::InvalidConfig(_))));
}

#[test]
fn invalid_template_fails_the_build() {
    let routes = vec![def("GET", "/a/{unclosed", 1)];
    assert!(matches!(RouteRegistry::from_routes(routes), Err(CoreError::InvalidConfig(_))));
    let routes = vec![def("GET", "/a/{*rest}/more", 1)];
    assert!(matches!(RouteRegistry::from_routes(routes), Err(CoreError::InvalidConfig(_))));
    let routes = vec![def("GET", "no-leading-slash", 1)];
    assert!(matches!(RouteRegistry::from_routes(routes), Err(CoreError::InvalidConfig(_))));
}

#[test]
fn lookup_is_case_insensitive_in_the_method() {
    let routes = vec![def("GeT", "/users/{id}", 9)];
    let registry = RouteRegistry::from_routes(routes).expect("registry should build");

    let a = registry.lookup("get", "/users/5").expect("lower-case hit");
    let b = registry.lookup("GET", "/users/5").expect("upper-case hit");
    assert_eq!(a.handler, b.handler);
    assert_eq!(
        a.path_params.get("id").map(|s| s.to_string()),
        b.path_params.get("id").map(|s| s.to_string())
    );
}

#[test]
fn wrong_method_is_distinguished_from_missing_path() {
    let routes = vec![def("POST", "/users/{id}", 1)];
    let registry = RouteRegistry::from_routes(routes).expect("registry should build");

    assert!(registry.lookup("GET", "/users/42").is_none());
    assert!(registry.path_exists_for_other_method("GET", "/users/42"));

    assert!(registry.lookup("GET", "/anything").is_none());
    assert!(!registry.path_exists_for_other_method("GET", "/anything"));
}

#[test]
fn literal_beats_parameter_beats_catch_all() {
    let routes = vec![
        def("GET", "/users/me", 1),
        def("GET", "/users/{id}", 2),
        def("GET", "/{*rest}", 3),
    ];
    let registry = RouteRegistry::from_routes(routes).expect("registry should build");

    assert_eq!(registry.lookup("GET", "/users/me").unwrap().handler, 1);
    assert_eq!(registry.lookup("GET", "/users/42").unwrap().handler, 2);
    assert_eq!(registry.lookup("GET", "/else/where").unwrap().handler, 3);
}

#[test]
fn tie_break_ignores_insertion_order() {
    let forward = vec![def("GET", "/users/me", 1), def("GET", "/users/{id}", 2)];
    let backward = vec![def("GET", "/users/{id}", 2), def("GET", "/users/me", 1)];
    let r1 = RouteRegistry::from_routes(forward).expect("registry should build");
    let r2 = RouteRegistry::from_routes(backward).expect("registry should build");

    assert_eq!(r1.lookup("GET", "/users/me").unwrap().handler, 1);
    assert_eq!(r2.lookup("GET", "/users/me").unwrap().handler, 1);
    assert_eq!(r1.lookup("GET", "/users/7").unwrap().handler, 2);
    assert_eq!(r2.lookup("GET", "/users/7").unwrap().handler, 2);
}
