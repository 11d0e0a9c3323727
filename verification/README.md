# hkask_templates

The template, bundle and cascade machinery of hKask, with the wallet and
identity stores beside it, written in Verus: Verus verifies the code
under `src/`, and the contracts of its functions say what they return; only
the small wrappers around outside crates are trusted.

- `src/` — the verified library: bundle manifests and their validation,
  composition pipelines and cascades, dependency graphs, the PDCA cascade
  state machine, template rendering and step conditions, prompt caching,
  context assembly, provenance, the registry, the wallet ledger and store,
  the WebID capability store, and the framing of model-server replies.
  Calls into outside crates (hashing, UUIDs, clocks, JSON and YAML parsing,
  Jinja rendering, date parsing) go through small trusted wrappers whose
  contracts say what the crates' documentation promises.
- `tests/` — tests on concrete values, run against the compiled library.
- `app/` — ordinary Rust around the library: configuration files, HTTP and
  model-server clients, the asynchronous drivers of the cascade and of CSP
  stages, and the scores that are floating-point numbers.
