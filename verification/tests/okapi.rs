use hkask_templates::okapi::{validate_prompt, OkapiConfig};

#[test]
fn okapi_config_for_inference_has_extended_timeout() {
    let cfg = OkapiConfig::for_inference("http://127.0.0.1:11435", None);
    assert_eq!(cfg.timeout_secs, 120);
    assert_eq!(cfg.base_url, "http://127.0.0.1:11435");
    assert!(cfg.api_key.is_none());
}

#[test]
fn local_dev_and_default_differ_only_in_pool_size() {
    let dev = OkapiConfig::local_dev();
    let def = OkapiConfig::default();
    assert_eq!(dev.base_url, "http://127.0.0.1:11435");
    assert_eq!(def.base_url, dev.base_url);
    assert_eq!(dev.timeout_secs, 30);
    assert_eq!(def.timeout_secs, 30);
    assert_eq!(dev.pool_max_idle, 5);
    assert_eq!(def.pool_max_idle, 10);
}

#[test]
fn authorization_header_uses_the_bearer_scheme() {
    let cfg = OkapiConfig::for_inference("https://okapi.example.com", Some("secret".to_string()));
    assert_eq!(cfg.get_authorization_header(), Some("Bearer secret".to_string()));
    assert_eq!(OkapiConfig::local_dev().get_authorization_header(), None);
}

#[test]
fn prompts_must_be_non_empty_and_not_too_long() {
    assert_eq!(validate_prompt(""), Err("Prompt is empty".to_string()));
    assert_eq!(validate_prompt("hello"), Ok(()));
    let long = "x".repeat(1_000_001);
    assert_eq!(validate_prompt(&long), Err("Prompt too long".to_string()));
    let limit = "x".repeat(1_000_000);
    assert_eq!(validate_prompt(&limit), Ok(()));
}
