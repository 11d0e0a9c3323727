//! Registration-time checks of the terms a template declares.
use vstd::prelude::*;
use crate::ports::TemplateError;

verus! {

/// Whether failed declaration checks block registration.
#[derive(Debug, Clone, Copy, PartialEq, Eq, Structural)]
pub enum ValidationMode {
    /// Failures are reported but do not block registration.
    Warn,
    /// Failures block registration.
    Reject,
}

/// Checks that template declarations are consistent.
#[derive(Debug)]
pub struct ContractValidator {
    mode: ValidationMode,
}

impl ContractValidator {
    /// The mode the validator runs in.
    pub closed spec fn mode(&self) -> ValidationMode {
        self.mode
    }

    /// A validator in warning mode.
    pub fn new() -> (r: ContractValidator)
        ensures
            r.mode() == ValidationMode::Warn,
    {
        ContractValidator { mode: ValidationMode::Warn }
    }

    /// The validator with its mode replaced.
    pub fn with_mode(self, mode: ValidationMode) -> (r: ContractValidator)
        ensures
            r.mode() == mode,
    {
        ContractValidator { mode }
    }

    /// Check the terms declared by a template: no rule is in force yet, so
    /// every declaration passes with no unknown term, in either mode.
    pub fn validate_terms(&self, _template_id: &str, _template_terms: &[String]) -> (r: (Result<(), TemplateError>, Vec<String>))
        ensures
            r.0 is Ok,
            r.1@.len() == 0,
    {
        (Ok(()), Vec::new())
    }
}

impl Default for ContractValidator {
    /// A validator in warning mode.
    fn default() -> (r: ContractValidator)
        ensures
            r.mode() == ValidationMode::Warn,
    {
        ContractValidator::new()
    }
}

} // verus!
