//! Registration-time check that an agent's capabilities satisfy what a
//! template requires.
use vstd::prelude::*;
use crate::ports::TemplateError;

verus! {

/// Checks capability declarations at template registration; enforcement at
/// run time happens where tools are invoked.
#[derive(Debug, Clone, Copy)]
pub struct CapabilityAwareValidator;

impl CapabilityAwareValidator {
    /// A validator.
    pub fn new() -> (r: CapabilityAwareValidator)
        ensures
            r == CapabilityAwareValidator,
    {
        CapabilityAwareValidator
    }

    /// Validate that the tokens held satisfy the template's capability
    /// requirements. No requirement is enforced at registration yet: every
    /// template, requirement list and token list is accepted.
    pub fn validate_capabilities<Token>(
        &self,
        _template_id: &str,
        _required_capabilities: &Vec<String>,
        _held_tokens: &Vec<Token>,
    ) -> (r: Result<(), TemplateError>)
        ensures
            r is Ok,
    {
        Ok(())
    }
}

impl Default for CapabilityAwareValidator {
    /// A validator.
    fn default() -> (r: CapabilityAwareValidator)
        ensures
            r == CapabilityAwareValidator,
    {
        CapabilityAwareValidator::new()
    }
}

} // verus!
