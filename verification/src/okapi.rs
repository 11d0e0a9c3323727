//! Okapi inference settings: where the service is, how to authenticate, how
//! long to wait; and the check a prompt must pass before it is sent.
use vstd::prelude::*;
use vstd::string::*;

verus! {

/// Connection settings of the Okapi service.
#[derive(Debug, Clone)]
pub struct OkapiConfig {
    pub base_url: String,
    pub api_key: Option<String>,
    pub timeout_secs: u64,
    pub pool_max_idle: usize,
}

/// The address of a local Okapi service.
pub open spec fn local_url() -> Seq<char> {
    "http://127.0.0.1:11435"@
}

impl Default for OkapiConfig {
    /// A local service without authentication, a 30 second timeout and ten
    /// idle connections.
    fn default() -> (r: OkapiConfig)
        ensures
            r.base_url@ == local_url(),
            r.api_key is None,
            r.timeout_secs == 30,
            r.pool_max_idle == 10,
    {
        OkapiConfig { base_url: String::from_str("http://127.0.0.1:11435"), api_key: None, timeout_secs: 30, pool_max_idle: 10 }
    }
}

impl OkapiConfig {
    /// Settings for local development: a local service without
    /// authentication, a 30 second timeout and five idle connections.
    pub fn local_dev() -> (r: OkapiConfig)
        ensures
            r.base_url@ == local_url(),
            r.api_key is None,
            r.timeout_secs == 30,
            r.pool_max_idle == 5,
    {
        OkapiConfig { base_url: String::from_str("http://127.0.0.1:11435"), api_key: None, timeout_secs: 30, pool_max_idle: 5 }
    }

    /// Settings for inference calls, which wait up to 120 seconds to allow
    /// for a model's cold start.
    pub fn for_inference(base_url: &str, api_key: Option<String>) -> (r: OkapiConfig)
        ensures
            r.base_url@ == base_url@,
            r.api_key == api_key,
            r.timeout_secs == 120,
            r.pool_max_idle == 10,
    {
        OkapiConfig { base_url: String::from_str(base_url), api_key, timeout_secs: 120, pool_max_idle: 10 }
    }

    /// The `Authorization` header value, when there is an API key.
    pub fn get_authorization_header(&self) -> (r: Option<String>)
        ensures
            match self.api_key {
                Some(k) => r matches Some(h) && h@ == "Bearer "@ + k@,
                None => r is None,
            },
    {
        match &self.api_key {
            Some(k) => {
                let mut h = String::from_str("Bearer ");
                h.append(k.as_str());
                Some(h)
            },
            None => None,
        }
    }
}

/// The longest prompt accepted, in bytes of UTF-8.
pub const MAX_PROMPT_BYTES: usize = 1000000;

/// Refuses an empty prompt and one longer than the limit.
pub fn validate_prompt(prompt: &str) -> (r: Result<(), String>)
    requires
        prompt.spec_bytes().len() <= usize::MAX,
    ensures
        prompt@.len() == 0 ==> (r matches Err(m) && m@ == "Prompt is empty"@),
        prompt@.len() > 0 && prompt.spec_bytes().len() > MAX_PROMPT_BYTES ==> (r matches Err(m) && m@ == "Prompt too long"@),
        r is Ok <==> (prompt@.len() > 0 && prompt.spec_bytes().len() <= MAX_PROMPT_BYTES),
{
    if prompt.is_empty() {
        return Err(String::from_str("Prompt is empty"));
    }
    if prompt.len() > MAX_PROMPT_BYTES {
        return Err(String::from_str("Prompt too long"));
    }
    Ok(())
}

/// A model offered by the service.
#[derive(Debug, Clone)]
pub struct OkapiModelEntry {
    pub name: String,
    pub size: Option<u64>,
    pub details: Option<OkapiModelDetails>,
}

/// What the service tells of a model; every field may be absent.
#[derive(Debug, Clone)]
pub struct OkapiModelDetails {
    pub family: Option<String>,
    pub parameter_size: Option<String>,
    pub quantization_level: Option<String>,
    /// Context length in tokens.
    pub context_length: Option<u32>,
    /// What the model can do, such as completion, chat or tools.
    pub capabilities: Option<Vec<String>>,
}

} // verus!
