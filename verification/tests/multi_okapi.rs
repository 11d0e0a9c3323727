use hkask_templates::multi_okapi::{endpoints_from_list, MultiOkapiClient, OkapiEndpoint};

#[test]
fn test_multi_okapi_client() {
    let client = MultiOkapiClient::new(vec![
        "http://127.0.0.1:11435".to_string(),
        "http://127.0.0.1:11436".to_string(),
        "http://127.0.0.1:11437".to_string(),
    ]);

    assert_eq!(client.endpoint_count(), 3);
}

fn client(n: usize) -> MultiOkapiClient {
    MultiOkapiClient::new((0..n).map(|i| format!("http://127.0.0.1:{}", 11435 + i)).collect())
}

#[test]
fn endpoint_health_transitions() {
    let mut e = OkapiEndpoint::new("http://a".to_string());
    assert!(e.is_healthy());
    e.mark_unhealthy();
    e.mark_unhealthy();
    assert!(!e.is_healthy());
    assert_eq!(e.consecutive_failures, 2);
    e.mark_healthy();
    assert!(e.is_healthy());
    assert_eq!(e.consecutive_failures, 0);
}

#[test]
fn healthy_endpoint_goes_round_from_current() {
    let mut c = client(3);
    assert_eq!(c.healthy_count(), 3);
    assert_eq!(c.get_healthy_endpoint().unwrap().url, "http://127.0.0.1:11435");
    c.failover();
    assert_eq!(c.get_healthy_endpoint().unwrap().url, "http://127.0.0.1:11436");
    c.record_outcome(1, false);
    assert_eq!(c.healthy_count(), 2);
    assert_eq!(c.get_healthy_endpoint().unwrap().url, "http://127.0.0.1:11437");
    c.record_outcome(2, false);
    // Going round wraps to the first endpoint.
    assert_eq!(c.get_healthy_endpoint().unwrap().url, "http://127.0.0.1:11435");
    c.record_outcome(0, false);
    assert_eq!(c.healthy_count(), 0);
    // None healthy: the first endpoint anyway.
    assert_eq!(c.get_healthy_endpoint().unwrap().url, "http://127.0.0.1:11435");
    c.record_outcome(2, true);
    assert_eq!(c.get_healthy_endpoint().unwrap().url, "http://127.0.0.1:11437");
    // A position without an endpoint changes nothing.
    c.record_outcome(7, true);
    assert_eq!(c.healthy_count(), 1);
}

#[test]
fn failover_wraps() {
    let mut c = client(2);
    c.failover();
    c.failover();
    assert_eq!(c.get_healthy_endpoint().unwrap().url, "http://127.0.0.1:11435");
}

#[test]
fn endpoint_list_is_split_and_trimmed() {
    assert_eq!(
        endpoints_from_list(" http://a:1 ,http://b:2,, http://c:3"),
        vec!["http://a:1".to_string(), "http://b:2".to_string(), String::new(), "http://c:3".to_string()]
    );
    assert_eq!(endpoints_from_list("http://127.0.0.1:11435"), vec!["http://127.0.0.1:11435".to_string()]);
    assert_eq!(endpoints_from_list(""), vec![String::new()]);
}
