use mdkb::http::{parse_target, percent_decode, HttpResponse, QueryParams};

#[test]
fn parses_path_and_query() {
    let (path, q) = parse_target("/search?q=restart%20nginx&limit=5");
    assert_eq!(path, "/search");
    assert_eq!(q.get("q").unwrap(), "restart nginx");
    assert_eq!(q.get("limit").unwrap(), "5");
}

#[test]
fn percent_and_plus_decode() {
    assert_eq!(percent_decode("a+b%2Fc"), "a b/c");
}

#[test]
fn response_serializes_with_headers() {
    let bytes = HttpResponse::html("<p>hi</p>").to_bytes();
    let s = String::from_utf8_lossy(&bytes);
    assert!(s.starts_with("HTTP/1.1 200 OK\r\n"));
    assert!(s.contains("Content-Length: 9"));
    assert!(s.ends_with("<p>hi</p>"));
}

#[test]
fn redirect_sets_location() {
    let r = HttpResponse::redirect("/page/a.md");
    assert_eq!(r.status, 302);
    assert_eq!(r.location.as_deref(), Some("/page/a.md"));
    assert!(String::from_utf8_lossy(&r.to_bytes()).contains("Location: /page/a.md"));
}

#[test]
fn bad_escapes_stay_literal_and_invalid_utf8_is_replaced() {
    assert_eq!(percent_decode("100%"), "100%");
    assert_eq!(percent_decode("%zz%4"), "%zz%4");
    assert_eq!(percent_decode("%C3%A9"), "é");
    assert_eq!(percent_decode("%FF"), "\u{FFFD}");
}

#[test]
fn later_query_values_win_and_empty_pieces_are_skipped() {
    let (path, q) = parse_target("/a%20b?x=1&&x=2&y");
    assert_eq!(path, "/a b");
    assert_eq!(q.get("x").unwrap(), "2");
    assert_eq!(q.get("y").unwrap(), "");
    assert!(q.get("z").is_none());
    let mut params = QueryParams::new();
    params.insert("k".into(), "v".into());
    assert_eq!(params.get("k").unwrap(), "v");
}

#[test]
fn not_found_has_status_404() {
    let r = HttpResponse::not_found("nope");
    assert_eq!(r.status, 404);
    assert_eq!(r.body, b"nope".to_vec());
    let s = String::from_utf8_lossy(&r.to_bytes()).to_string();
    assert!(s.starts_with("HTTP/1.1 404 Not Found\r\n"));
}
