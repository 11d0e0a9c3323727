//! The decisions of the prompt cache: the key of an entry, how long an
//! entry lives by the kind of model, and how many of the least used entries
//! to evict to make room. The entries themselves live in a database.
use vstd::prelude::*;
use vstd::string::*;
use crate::audit::{hex_encode, hex_lower, sha256_digest, sha256_of};
use crate::text::has_sub;

verus! {

/// What the prompt cache holds.
#[derive(Debug, Clone, Copy, PartialEq, Eq, Structural)]
pub struct CacheStats {
    pub entry_count: i64,
    pub total_size_bytes: i64,
    pub total_accesses: i64,
}

/// How long entries live, in seconds, by the kind of model.
#[derive(Debug, Clone, Copy, PartialEq, Eq, Structural)]
pub struct CacheTtlConfig {
    pub instruct: u64,
    pub thinking: u64,
    pub categorization: u64,
    pub embedding: u64,
    pub specialist: u64,
}

impl CacheTtlConfig {
    /// Instruct, categorization and specialist models a day, thinking
    /// models an hour, embedding models thirty days.
    pub fn default_ttls() -> (r: CacheTtlConfig)
        ensures
            r == (CacheTtlConfig {
                instruct: 86400,
                thinking: 3600,
                categorization: 86400,
                embedding: 2592000,
                specialist: 86400,
            }),
    {
        CacheTtlConfig {
            instruct: 24 * 60 * 60,
            thinking: 60 * 60,
            categorization: 24 * 60 * 60,
            embedding: 30 * 24 * 60 * 60,
            specialist: 24 * 60 * 60,
        }
    }
}

/// The bounds of the cache.
#[derive(Debug, Clone, Copy, PartialEq, Eq, Structural)]
pub struct PromptCacheConfig {
    pub max_size_mb: i64,
    pub ttl_config: CacheTtlConfig,
}

impl PromptCacheConfig {
    /// A hundred megabytes, with the default lifetimes.
    pub fn default_config() -> (r: PromptCacheConfig)
        ensures
            r.max_size_mb == 100,
            r.ttl_config == (CacheTtlConfig {
                instruct: 86400,
                thinking: 3600,
                categorization: 86400,
                embedding: 2592000,
                specialist: 86400,
            }),
    {
        PromptCacheConfig { max_size_mb: 100, ttl_config: CacheTtlConfig::default_ttls() }
    }
}

/// The lifetime of an entry made by `model`: thinking models (`thinking`,
/// `reason`), then embedding models (`embedding`, `embed`), then
/// categorization (`categorization`, `classify`), then specialists (`code`,
/// `specialist`); instruct models otherwise.
pub open spec fn ttl_of(c: CacheTtlConfig, model: Seq<char>) -> u64 {
    if has_sub(model, "thinking"@) || has_sub(model, "reason"@) {
        c.thinking
    } else if has_sub(model, "embedding"@) || has_sub(model, "embed"@) {
        c.embedding
    } else if has_sub(model, "categorization"@) || has_sub(model, "classify"@) {
        c.categorization
    } else if has_sub(model, "code"@) || has_sub(model, "specialist"@) {
        c.specialist
    } else {
        c.instruct
    }
}

fn mentions(model: &Vec<char>, word: &str) -> (r: bool)
    ensures
        r == has_sub(model@, word@),
{
    crate::text::contains_str(model, word)
}

/// The lifetime, in seconds, of an entry made by `model`.
pub fn ttl_for_model(config: &PromptCacheConfig, model: &str) -> (r: u64)
    ensures
        r == ttl_of(config.ttl_config, model@),
{
    let m = crate::text::str_chars(model);
    let t = &config.ttl_config;
    if mentions(&m, "thinking") || mentions(&m, "reason") {
        t.thinking
    } else if mentions(&m, "embedding") || mentions(&m, "embed") {
        t.embedding
    } else if mentions(&m, "categorization") || mentions(&m, "classify") {
        t.categorization
    } else if mentions(&m, "code") || mentions(&m, "specialist") {
        t.specialist
    } else {
        t.instruct
    }
}

/// The key of an entry: the first sixteen bytes of the SHA-256 digest of
/// the prompt, the model and the parameters' bytes, in hexadecimal.
pub open spec fn cache_key(prompt: Seq<char>, model: Seq<char>, parameters: Seq<u8>) -> Seq<char> {
    hex_lower(sha256_of(vstd::utf8::encode_utf8(prompt) + vstd::utf8::encode_utf8(model) + parameters).take(16))
}

fn push_all(out: &mut Vec<u8>, bytes: &[u8])
    ensures
        final(out)@ == old(out)@ + bytes@,
{
    let mut i: usize = 0;
    while i < bytes.len()
        invariant
            i <= bytes@.len(),
            out@ == old(out)@ + bytes@.take(i as int),
        decreases bytes@.len() - i,
    {
        out.push(bytes[i]);
        proof {
            assert(bytes@.take(i + 1) =~= bytes@.take(i as int).push(bytes@[i as int]));
        }
        i = i + 1;
    }
    proof {
        assert(bytes@.take(bytes@.len() as int) =~= bytes@);
    }
}

/// The key of the entry for `prompt` sent to `model` with the parameters
/// whose little-endian bytes are `parameters`.
pub fn generate_key(prompt: &str, model: &str, parameters: &[u8]) -> (r: String)
    ensures
        r@ == cache_key(prompt@, model@, parameters@),
{
    let mut bytes: Vec<u8> = Vec::new();
    push_all(&mut bytes, prompt.as_bytes());
    push_all(&mut bytes, model.as_bytes());
    push_all(&mut bytes, parameters);
    let digest = sha256_digest(bytes.as_slice());
    let mut head: Vec<u8> = Vec::new();
    let mut i: usize = 0;
    while i < 16
        invariant
            i <= 16,
            digest@.len() == 32,
            head@ == digest@.take(i as int),
        decreases 16 - i,
    {
        head.push(digest[i]);
        proof {
            assert(digest@.take(i + 1) =~= digest@.take(i as int).push(digest@[i as int]));
        }
        i = i + 1;
    }
    proof {
        assert(bytes@ =~= vstd::utf8::encode_utf8(prompt@) + vstd::utf8::encode_utf8(model@) + parameters@);
    }
    hex_encode(&head)
}

/// The bytes freed by evicting the first `k` candidates.
pub open spec fn freed_upto(sizes: Seq<i64>, k: int) -> int
    decreases k,
{
    if k <= 0 || k > sizes.len() {
        0
    } else {
        freed_upto(sizes, k - 1) + sizes[k - 1]
    }
}

/// Going through the candidates from the `k`-th, the number taken when
/// taking stops as soon as `need` bytes are freed.
pub open spec fn taken_from(sizes: Seq<i64>, need: int, k: int) -> int
    decreases sizes.len() - k,
{
    if k < 0 || k >= sizes.len() {
        if k < 0 { 0 } else { sizes.len() as int }
    } else if freed_upto(sizes, k + 1) >= need {
        k + 1
    } else {
        taken_from(sizes, need, k + 1)
    }
}

/// The number of candidates to evict before adding an entry of `new_size`
/// bytes to a cache of `current` bytes and at most `max_size_mb`
/// megabytes: none when it fits; else the least used candidates, in order,
/// until the freed bytes reach the new size, or all of them.
pub open spec fn evictions(max_size_mb: i64, current: i64, new_size: i64, sizes: Seq<i64>) -> int {
    if current + new_size <= max_size_mb * 1048576 {
        0
    } else {
        taken_from(sizes, new_size as int, 0)
    }
}

/// How many of `sizes`, the sizes of the least used entries in eviction
/// order, to evict before adding an entry of `new_size` bytes.
pub fn eviction_count(max_size_mb: i64, current: i64, new_size: i64, sizes: &Vec<i64>) -> (r: usize)
    requires
        i64::MIN <= max_size_mb * 1048576 <= i64::MAX,
        i64::MIN <= current + new_size <= i64::MAX,
    ensures
        r == evictions(max_size_mb, current, new_size, sizes@),
        r <= sizes@.len(),
{
    let max_size = max_size_mb * 1048576;
    if current + new_size <= max_size {
        return 0;
    }
    let mut freed: i128 = 0;
    let mut k: usize = 0;
    while k < sizes.len()
        invariant
            k <= sizes@.len(),
            freed == freed_upto(sizes@, k as int),
            current + new_size > max_size_mb * 1048576,
            k == 0 ==> freed == 0,
            k > 0 ==> freed < new_size,
            freed >= -9223372036854775808 * (k as int),
            taken_from(sizes@, new_size as int, 0) == taken_from(sizes@, new_size as int, k as int),
        decreases sizes@.len() - k,
    {
        proof {
            assert(-9223372036854775808 * (k as int) - 9223372036854775808 >= -9223372036854775808 * (usize::MAX as int) - 9223372036854775808)
                by (nonlinear_arith)
                requires
                    k <= usize::MAX;
        }
        let ghost k0 = k as int;
        freed = freed + sizes[k] as i128;
        proof {
            assert(freed == freed_upto(sizes@, k0 + 1));
        }
        k = k + 1;
        if freed >= new_size as i128 {
            proof {
                assert(taken_from(sizes@, new_size as int, k0) == k0 + 1);
            }
            return k;
        }
        proof {
            assert(taken_from(sizes@, new_size as int, k0) == taken_from(sizes@, new_size as int, k0 + 1));
        }
    }
    k
}

} // verus!
