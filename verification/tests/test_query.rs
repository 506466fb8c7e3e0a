use vyro_native::http::query::parse_query;

#[test]
fn query_pairs_are_decoded_last_wins() {
    let m = parse_query(Some("a=1&b=2&a=3"));
    assert_eq!(m.get("a").map(|s| s.as_str()), Some("3"));
    assert_eq!(m.get("b").map(|s| s.as_str()), Some("2"));
    assert_eq!(m.len(), 2);
}

#[test]
fn missing_query_gives_an_empty_mapping() {
    let m = parse_query(None);
    assert_eq!(m.len(), 0);
}

#[test]
fn plus_and_percent_escapes_decode() {
    let m = parse_query(Some("greeting=hello+world&pct=%41%62%20"));
    assert_eq!(m.get("greeting").map(|s| s.as_str()), Some("hello world"));
    assert_eq!(m.get("pct").map(|s| s.as_str()), Some("Ab "));
}

#[test]
fn multibyte_percent_escapes_decode_as_utf8() {
    let m = parse_query(Some("city=Z%C3%BCrich"));
    assert_eq!(m.get("city").map(|s| s.as_str()), Some("Z\u{fc}rich"));
}

#[test]
fn malformed_escapes_stand_for_themselves() {
    let m = parse_query(Some("a=%4&b=%zz&c=100%"));
    assert_eq!(m.get("a").map(|s| s.as_str()), Some("%4"));
    assert_eq!(m.get("b").map(|s| s.as_str()), Some("%zz"));
    assert_eq!(m.get("c").map(|s| s.as_str()), Some("100%"));
}

#[test]
fn empty_pieces_are_dropped_and_bare_keys_kept() {
    let m = parse_query(Some("&&a&b=&"));
    assert_eq!(m.len(), 2);
    assert_eq!(m.get("a").map(|s| s.as_str()), Some(""));
    assert_eq!(m.get("b").map(|s| s.as_str()), Some(""));
}
