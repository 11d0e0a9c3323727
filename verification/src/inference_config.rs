//! Inference configuration: provider routing for Ollama, Fireworks and DeepInfra.
//!
//! Model names carry a two-letter provider prefix: `OM/` (Ollama, local),
//! `FW/` (Fireworks, cloud), `DI/` (DeepInfra, cloud). A name without a
//! recognized prefix goes to the default provider.
use vstd::prelude::*;
use vstd::string::*;

verus! {

/// Two-letter provider identifier for inference routing.
#[derive(Debug, Clone, Copy, PartialEq, Eq, Hash, Structural)]
pub enum ProviderId {
    /// Ollama (local), prefix `OM/`.
    Ollama,
    /// Fireworks.ai (cloud), prefix `FW/`.
    Fireworks,
    /// DeepInfra (cloud), prefix `DI/`.
    DeepInfra,
}

/// The two-letter code of a provider.
pub open spec fn provider_code(p: ProviderId) -> Seq<char> {
    match p {
        ProviderId::Ollama => seq!['O', 'M'],
        ProviderId::Fireworks => seq!['F', 'W'],
        ProviderId::DeepInfra => seq!['D', 'I'],
    }
}

/// The provider whose code is the two characters `a`, `b`, if any.
pub open spec fn provider_of_code(a: char, b: char) -> Option<ProviderId> {
    if a == 'O' && b == 'M' {
        Some(ProviderId::Ollama)
    } else if a == 'F' && b == 'W' {
        Some(ProviderId::Fireworks)
    } else if a == 'D' && b == 'I' {
        Some(ProviderId::DeepInfra)
    } else {
        None
    }
}

/// A model name `XX/rest` with a known code `XX` and a non-empty `rest`
/// splits into the provider and `rest`; any other name has no prefix.
pub open spec fn split_provider_prefix(model: Seq<char>) -> Option<(ProviderId, Seq<char>)> {
    if model.len() >= 4 && model[2] == '/' {
        match provider_of_code(model[0], model[1]) {
            Some(p) => Some((p, model.subrange(3, model.len() as int))),
            None => None,
        }
    } else {
        None
    }
}

impl ProviderId {
    /// Parse a two-letter provider prefix from a model name.
    ///
    /// Returns `None` when the name has no recognized prefix or nothing
    /// follows it; otherwise the provider and the name without its prefix.
    pub fn parse_from_model(model: &str) -> (r: Option<(ProviderId, &str)>)
        ensures
            r matches Some((p, rest)) ==> split_provider_prefix(model@) == Some((p, rest@)),
            r is None ==> split_provider_prefix(model@) is None,
    {
        let n = model.unicode_len();
        if n < 4 {
            return None;
        }
        if model.get_char(2) != '/' {
            return None;
        }
        let a = model.get_char(0);
        let b = model.get_char(1);
        let p = if a == 'O' && b == 'M' {
            ProviderId::Ollama
        } else if a == 'F' && b == 'W' {
            ProviderId::Fireworks
        } else if a == 'D' && b == 'I' {
            ProviderId::DeepInfra
        } else {
            return None;
        };
        let rest = model.substring_char(3, n);
        Some((p, rest))
    }

    /// Format a model name with this provider's prefix.
    pub fn prefix_model(&self, model: &str) -> (r: String)
        ensures
            r@ == provider_code(*self) + seq!['/'] + model@,
    {
        let mut out = String::from_str(self.as_str());
        let slash = "/";
        proof {
            reveal_strlit("/");
        }
        out.append(slash);
        out.append(model);
        out
    }

    /// Two-letter code for this provider.
    pub fn as_str(&self) -> (r: &'static str)
        ensures
            r@ == provider_code(*self),
    {
        match self {
            ProviderId::Ollama => {
                proof {
                    reveal_strlit("OM");
                }
                "OM"
            },
            ProviderId::Fireworks => {
                proof {
                    reveal_strlit("FW");
                }
                "FW"
            },
            ProviderId::DeepInfra => {
                proof {
                    reveal_strlit("DI");
                }
                "DI"
            },
        }
    }
}

/// Configuration for the inference router: connection settings per provider
/// and the default provider for model names without a prefix.
#[derive(Debug, Clone)]
pub struct InferenceConfig {
    /// Default provider for model names without a prefix.
    pub default_provider: ProviderId,
    /// Base URL of the Ollama inference server.
    pub ollama_base_url: String,
    /// Base URL of the Fireworks inference API.
    pub fireworks_base_url: String,
    /// API key for Fireworks; empty means the provider is unavailable.
    pub fireworks_api_key: String,
    /// Base URL of the DeepInfra (OpenAI-compatible) API.
    pub deepinfra_base_url: String,
    /// API key for DeepInfra; empty means the provider is unavailable.
    pub deepinfra_api_key: String,
    /// Request timeout in seconds for inference calls.
    pub timeout_secs: u64,
    /// Max idle connections per host in the HTTP client pool.
    pub pool_max_idle: usize,
}

impl Default for InferenceConfig {
    /// Local-first defaults: Ollama at 127.0.0.1:11434, public cloud endpoints
    /// without keys, a 120 second timeout and 5 idle connections per host.
    fn default() -> (r: InferenceConfig)
        ensures
            r.default_provider == ProviderId::Ollama,
            r.ollama_base_url@ == "http://127.0.0.1:11434"@,
            r.fireworks_base_url@ == "https://api.fireworks.ai/inference"@,
            r.fireworks_api_key@ == Seq::<char>::empty(),
            r.deepinfra_base_url@ == "https://api.deepinfra.com/v1/openai"@,
            r.deepinfra_api_key@ == Seq::<char>::empty(),
            r.timeout_secs == 120,
            r.pool_max_idle == 5,
    {
        InferenceConfig {
            default_provider: ProviderId::Ollama,
            ollama_base_url: String::from_str("http://127.0.0.1:11434"),
            fireworks_base_url: String::from_str("https://api.fireworks.ai/inference"),
            fireworks_api_key: String::new(),
            deepinfra_base_url: String::from_str("https://api.deepinfra.com/v1/openai"),
            deepinfra_api_key: String::new(),
            timeout_secs: 120,
            pool_max_idle: 5,
        }
    }
}

} // verus!
