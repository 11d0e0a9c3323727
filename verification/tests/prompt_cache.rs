use hkask_templates::prompt_cache::{
    eviction_count, generate_key, ttl_for_model, CacheStats, CacheTtlConfig, PromptCacheConfig,
};
use sha2::{Digest, Sha256};

#[test]
fn key_is_truncated_sha256_of_inputs() {
    let params = [0x00u8, 0x00, 0x80, 0x3f, 7, 0, 0, 0];
    let key = generate_key("Summarize this", "okapi-instruct", &params);
    let mut bytes = b"Summarize thisokapi-instruct".to_vec();
    bytes.extend_from_slice(&params);
    let digest = Sha256::digest(&bytes);
    assert_eq!(key, hex::encode(&digest[..16]));
    assert_eq!(key.len(), 32);
    assert_ne!(key, generate_key("Summarize that", "okapi-instruct", &params));
}

#[test]
fn ttl_by_model_kind() {
    let c = PromptCacheConfig::default_config();
    assert_eq!(c.max_size_mb, 100);
    assert_eq!(ttl_for_model(&c, "qwen-thinking"), 3600);
    assert_eq!(ttl_for_model(&c, "deep-reasoner"), 3600);
    assert_eq!(ttl_for_model(&c, "nomic-embed-text"), 30 * 24 * 3600);
    assert_eq!(ttl_for_model(&c, "classify-small"), 24 * 3600);
    assert_eq!(ttl_for_model(&c, "codellama"), 24 * 3600);
    assert_eq!(ttl_for_model(&c, "llama3"), 24 * 3600);
    // Thinking is checked before embedding.
    let custom = PromptCacheConfig {
        max_size_mb: 1,
        ttl_config: CacheTtlConfig { instruct: 1, thinking: 2, categorization: 3, embedding: 4, specialist: 5 },
    };
    assert_eq!(ttl_for_model(&custom, "embed-reason"), 2);
    assert_eq!(ttl_for_model(&custom, "text-embedding"), 4);
    assert_eq!(ttl_for_model(&custom, "categorization"), 3);
    assert_eq!(ttl_for_model(&custom, "specialist"), 5);
    assert_eq!(ttl_for_model(&custom, "plain"), 1);
}

#[test]
fn eviction_only_when_over_budget() {
    let mb = 1024 * 1024;
    assert_eq!(eviction_count(1, mb - 10, 10, &vec![5, 5]), 0);
    assert_eq!(eviction_count(1, mb - 10, 11, &vec![5, 5, 5]), 3);
    assert_eq!(eviction_count(1, mb, 8, &vec![5, 5, 5]), 2);
    assert_eq!(eviction_count(1, mb, 5, &vec![5, 5, 5]), 1);
    assert_eq!(eviction_count(1, mb, 100, &vec![5, 5]), 2);
    assert_eq!(eviction_count(1, mb, 100, &vec![]), 0);
}

#[test]
fn cache_stats_fields() {
    let s = CacheStats { entry_count: 2, total_size_bytes: 40, total_accesses: 3 };
    assert_eq!(s, CacheStats { entry_count: 2, total_size_bytes: 40, total_accesses: 3 });
}
