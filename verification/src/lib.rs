use vstd::prelude::*;

pub mod prompt_strategy;
pub mod text;
pub mod decimal;
pub mod ports;
pub mod inference_config;
pub mod graph;
pub mod walks;
pub mod dependency;
pub mod composition;
pub mod cascade;
pub mod bundle;
pub mod csp;
pub mod okapi;
pub mod http;
pub mod engine;
pub mod context_assembly;
pub mod lexicon;
pub mod contract_validator;
pub mod capability_validator;
pub mod curator_pipeline;
pub mod prompt_cache;
pub mod webid_store;
pub mod audit;
pub mod rate_limiter;
pub mod manifest_repository;
pub mod bundle_evolver;
pub mod executor;
pub mod pdca;
pub mod multi_okapi;
pub mod registry;
pub mod wallet;
pub mod user_store;
pub mod provenance;
pub mod inference;
pub mod keyed;
pub mod sorting;
pub mod json;
pub mod wallet_store;

verus! {

} // verus!
