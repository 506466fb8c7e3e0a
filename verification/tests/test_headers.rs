use vyro_native::errors::core_error::CoreError;
use vyro_native::http::headers::{header_name, header_value, lower_ascii};
use vyro_native::lifecycle::{effective_workers, host_is_blank};
use vyro_native::routing::method_table::normalize_method;
use vyro_native::strmap::StringMap;

#[test]
fn header_names_are_validated_and_lowered() {
    let h = header_name("X-Request-Id").expect("a legal name");
    assert_eq!(h.name, "x-request-id");
    assert!(matches!(header_name(""), Err(CoreError::ResponseBuild(_))));
    assert!(matches!(header_name("bad name"), Err(CoreError::ResponseBuild(_))));
    assert!(matches!(header_name("bad:name"), Err(CoreError::ResponseBuild(_))));
}

#[test]
fn header_values_reject_control_characters() {
    let v = header_value("text/plain; charset=utf-8").expect("a legal value");
    assert_eq!(v.value, "text/plain; charset=utf-8");
    assert!(header_value("with\ttab").is_ok());
    assert!(matches!(header_value("split\r\nheader"), Err(CoreError::ResponseBuild(_))));
    assert!(matches!(header_value("nul\u{0}"), Err(CoreError::ResponseBuild(_))));
}

#[test]
fn ascii_case_mapping_is_total() {
    assert_eq!(lower_ascii("X-TRACE"), "x-trace");
    assert_eq!(normalize_method("get"), "GET");
    assert_eq!(normalize_method("Patch"), "PATCH");
    assert_eq!(normalize_method("GET"), "GET");
}

#[test]
fn string_map_binds_last_value_per_key() {
    let mut m = StringMap::new();
    m.insert("k".to_string(), "1".to_string());
    m.insert("other".to_string(), "x".to_string());
    m.insert("k".to_string(), "2".to_string());
    assert_eq!(m.len(), 2);
    assert_eq!(m.get("k").map(|s| s.as_str()), Some("2"));
    assert_eq!(m.get("other").map(|s| s.as_str()), Some("x"));
    assert!(m.get("absent").is_none());
    assert!(m.contains_key("k"));
    assert!(!m.contains_key("absent"));
}

#[test]
fn blank_hosts_are_recognized() {
    assert!(host_is_blank(""));
    assert!(host_is_blank("  \t\r\n"));
    assert!(!host_is_blank(" 127.0.0.1 "));
}

#[test]
fn worker_count_is_coerced_to_at_least_one() {
    assert_eq!(effective_workers(0), 1);
    assert_eq!(effective_workers(1), 1);
    assert_eq!(effective_workers(8), 8);
}
