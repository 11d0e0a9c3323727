use hkask_templates::http::{HttpAdapterError, HttpMethod, HttpRequest};
use serde_json::Value;

#[test]
fn get_request_defaults() {
    let r = HttpRequest::get("http://h/x".to_string());
    assert_eq!(r.method, HttpMethod::Get);
    assert_eq!(r.url, "http://h/x");
    assert!(r.headers.is_empty());
    assert!(r.body.is_none());
    assert_eq!(r.timeout_secs, 30);
}

#[test]
fn post_request_with_headers_and_timeout() {
    let r = HttpRequest::post("u".to_string(), Value::Bool(true))
        .with_header("A", "1")
        .with_header("B", "2")
        .with_timeout(5);
    assert_eq!(r.method, HttpMethod::Post);
    assert_eq!(r.body, Some(Value::Bool(true)));
    assert_eq!(r.headers, vec![("A".to_string(), "1".to_string()), ("B".to_string(), "2".to_string())]);
    assert_eq!(r.timeout_secs, 5);
}

#[test]
fn adapter_errors_have_their_messages() {
    assert_eq!(HttpAdapterError::RequestFailed("x".into()).message(), "Request failed: x");
    assert_eq!(HttpAdapterError::ParseError("y".into()).message(), "Response parse error: y");
    assert_eq!(HttpAdapterError::Timeout("z".into()).message(), "Timeout: z");
}
