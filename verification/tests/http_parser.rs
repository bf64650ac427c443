use loglens::parser::http::{info_from_captures, parse};

#[test]
fn parses_simple_with_duration() {
    let info = parse("GET /api/users 200 42ms").unwrap();
    assert_eq!(info.method, "GET");
    assert_eq!(info.path, "/api/users");
    assert_eq!(info.status, 200);
    assert_eq!(info.duration_ms, Some(42));
}

#[test]
fn parses_simple_without_duration() {
    let info = parse("DELETE /api/orders/5 204").unwrap();
    assert_eq!(info.method, "DELETE");
    assert_eq!(info.status, 204);
    assert_eq!(info.duration_ms, None);
}

#[test]
fn parses_combined_apache_style() {
    let line = r#"192.168.1.1 - - [15/Sep/2026:14:21:04 +0000] "GET /api/products HTTP/1.1" 200 124"#;
    let info = parse(line).unwrap();
    assert_eq!(info.method, "GET");
    assert_eq!(info.path, "/api/products");
    assert_eq!(info.status, 200);
}

#[test]
fn rejects_non_http() {
    assert!(parse("User authenticated id=4812").is_none());
    assert!(parse("Database connection timeout").is_none());
    assert!(parse("").is_none());
}

fn groups(v: &[Option<&str>]) -> Vec<Option<String>> {
    v.iter().map(|g| g.map(|s| s.to_string())).collect()
}

#[test]
fn captures_give_method_path_status_duration() {
    let caps = groups(&[Some("POST /x 201 7ms"), Some("POST"), Some("/x"), Some("201"), Some("7")]);
    let info = info_from_captures(&caps, true).unwrap();
    assert_eq!(info.method, "POST");
    assert_eq!(info.path, "/x");
    assert_eq!(info.status, 201);
    assert_eq!(info.duration_ms, Some(7));
    // The combined pattern has no duration group.
    let info = info_from_captures(&caps, false).unwrap();
    assert_eq!(info.duration_ms, None);
}

#[test]
fn captures_with_missing_group_give_nothing() {
    let caps = groups(&[Some("GET"), Some("GET"), None, Some("200")]);
    assert!(info_from_captures(&caps, true).is_none());
    let caps = groups(&[Some("GET /a"), Some("GET"), Some("/a")]);
    assert!(info_from_captures(&caps, true).is_none());
}

#[test]
fn status_must_be_a_u16_number() {
    let caps = groups(&[Some(""), Some("GET"), Some("/a"), Some("70000"), None]);
    assert!(info_from_captures(&caps, true).is_none());
    let caps = groups(&[Some(""), Some("GET"), Some("/a"), Some("+204"), None]);
    assert_eq!(info_from_captures(&caps, true).unwrap().status, 204);
    let caps = groups(&[Some(""), Some("GET"), Some("/a"), Some("20x"), None]);
    assert!(info_from_captures(&caps, true).is_none());
}

#[test]
fn oversized_duration_is_dropped() {
    let caps = groups(&[
        Some(""),
        Some("GET"),
        Some("/a"),
        Some("200"),
        Some("99999999999999999999999"),
    ]);
    let info = info_from_captures(&caps, true).unwrap();
    assert_eq!(info.duration_ms, None);
}

#[test]
fn unicode_digits_in_status_reject_the_line() {
    // `\d` matches any Unicode digit, but the status must parse as ASCII.
    assert!(parse("GET /a \u{0662}\u{0660}\u{0660}").is_none());
}

#[test]
fn simple_pattern_must_start_the_message() {
    assert!(parse("x GET /a 200").is_none());
    let info = parse("PATCH /items/3 500 12ms trailing").unwrap();
    assert_eq!(info.status, 500);
    assert_eq!(info.duration_ms, Some(12));
}
