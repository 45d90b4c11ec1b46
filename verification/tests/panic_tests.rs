use ukuma::{panic_body, panic_details, panic_response};

fn expected_body(details: &str) -> String {
    let mut inner = serde_json::Map::new();
    inner.insert("kind".to_string(), serde_json::Value::String("panic".to_string()));
    inner.insert("details".to_string(), serde_json::Value::String(details.to_string()));
    let mut outer = serde_json::Map::new();
    outer.insert("error".to_string(), serde_json::Value::Object(inner));
    serde_json::to_string(&serde_json::Value::Object(outer)).unwrap()
}

#[test]
fn panic_details_cases() {
    assert_eq!(panic_details(Some("boom".to_string())), "boom");
    assert_eq!(panic_details(None), "Unknown panic message");
}

#[test]
fn panic_body_plain() {
    assert_eq!(panic_body("boom"), "{\"error\":{\"details\":\"boom\",\"kind\":\"panic\"}}");
    assert_eq!(panic_body("boom"), expected_body("boom"));
}

#[test]
fn panic_body_escapes() {
    let details = "a \"quoted\" \\path\n\t\r\u{8}\u{c}\u{1}\u{1f}\u{7f} é";
    assert_eq!(
        panic_body(details),
        "{\"error\":{\"details\":\"a \\\"quoted\\\" \\\\path\\n\\t\\r\\b\\f\\u0001\\u001f\u{7f} é\",\"kind\":\"panic\"}}"
    );
    assert_eq!(panic_body(details), expected_body(details));
    assert_eq!(panic_body(""), expected_body(""));
}

#[test]
fn panic_response_fields() {
    let r = panic_response("oops");
    assert_eq!(r.status, 500);
    assert_eq!(r.content_type, "application/json");
    assert_eq!(r.body, expected_body("oops"));
}

#[test]
fn panic_body_details_read_back() {
    for details in [
        "",
        "plain",
        "quote \" and backslash \\",
        "lines\nand\ttabs\r\u{8}\u{c}",
        "control \u{0}\u{1}\u{1f} and del \u{7f}",
        "non-ASCII é ü 黑 👨‍👩‍👧",
        "json-looking \",\"kind\":\"other\"}}",
    ] {
        let body = panic_body(details);
        let v: serde_json::Value = serde_json::from_str(&body).unwrap();
        assert_eq!(v["error"]["details"], serde_json::Value::String(details.to_string()));
        assert_eq!(v["error"]["kind"], serde_json::Value::String("panic".to_string()));
    }
}
