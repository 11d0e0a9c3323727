use hkask_templates::inference_config::{InferenceConfig, ProviderId};

#[test]
fn parse_provider_prefix() {
    assert_eq!(
        ProviderId::parse_from_model("OM/qwen3:8b"),
        Some((ProviderId::Ollama, "qwen3:8b"))
    );
    assert_eq!(
        ProviderId::parse_from_model("FW/llama-v3p1-70b-instruct"),
        Some((ProviderId::Fireworks, "llama-v3p1-70b-instruct"))
    );
    assert_eq!(
        ProviderId::parse_from_model("DI/meta-llama/Llama-3.3-70B-Instruct"),
        Some((ProviderId::DeepInfra, "meta-llama/Llama-3.3-70B-Instruct"))
    );
}

#[test]
fn parse_no_prefix_returns_none() {
    assert_eq!(ProviderId::parse_from_model("deepseek-v4-pro"), None);
    assert_eq!(ProviderId::parse_from_model("qwen3:8b"), None);
}

#[test]
fn parse_empty_model_returns_none() {
    assert_eq!(ProviderId::parse_from_model("OM/"), None);
    assert_eq!(ProviderId::parse_from_model("FW/"), None);
    assert_eq!(ProviderId::parse_from_model("DI/"), None);
}

#[test]
fn parse_too_short_returns_none() {
    assert_eq!(ProviderId::parse_from_model("OM"), None);
    assert_eq!(ProviderId::parse_from_model("DI"), None);
    assert_eq!(ProviderId::parse_from_model("X"), None);
}

#[test]
fn parse_unknown_prefix_returns_none() {
    assert_eq!(ProviderId::parse_from_model("XX/model"), None);
    assert_eq!(ProviderId::parse_from_model("AB/test"), None);
}

#[test]
fn prefix_model_format() {
    assert_eq!(ProviderId::Ollama.prefix_model("qwen3:8b"), "OM/qwen3:8b");
    assert_eq!(
        ProviderId::Fireworks.prefix_model("llama-v3p1"),
        "FW/llama-v3p1"
    );
    assert_eq!(
        ProviderId::DeepInfra.prefix_model("meta-llama/Llama-3.3-70B"),
        "DI/meta-llama/Llama-3.3-70B"
    );
}

#[test]
fn prefix_then_parse_gives_the_model_back() {
    for p in [ProviderId::Ollama, ProviderId::Fireworks, ProviderId::DeepInfra] {
        let full = p.prefix_model("m:1");
        assert_eq!(ProviderId::parse_from_model(&full), Some((p, "m:1")));
    }
}

#[test]
fn inference_config_defaults() {
    let cfg = InferenceConfig::default();
    assert_eq!(cfg.default_provider, ProviderId::Ollama);
    assert_eq!(cfg.ollama_base_url, "http://127.0.0.1:11434");
    assert_eq!(cfg.timeout_secs, 120);
    assert_eq!(cfg.pool_max_idle, 5);
    assert!(cfg.fireworks_api_key.is_empty());
}

#[test]
fn parse_non_ascii_model_name() {
    assert_eq!(ProviderId::parse_from_model("OM/é"), Some((ProviderId::Ollama, "é")));
}
