use hkask_templates::capability_validator::CapabilityAwareValidator;
use hkask_templates::contract_validator::{ContractValidator, ValidationMode};
use hkask_templates::curator_pipeline::CurationError;

#[test]
fn validator_always_passes() {
    let validator = ContractValidator::new();
    let (result, unknown) = validator.validate_terms("test", &["anything".into()]);
    assert!(result.is_ok());
    assert!(unknown.is_empty());
}

#[test]
fn contract_validator_validator_default_is_passthrough() {
    let validator = ContractValidator::default();
    let (result, unknown) = validator.validate_terms("test", &["anything".into()]);
    assert!(result.is_ok());
    assert!(unknown.is_empty());
}

#[test]
fn reject_mode_passes_while_no_rule_is_in_force() {
    let validator = ContractValidator::new().with_mode(ValidationMode::Reject);
    let (result, unknown) = validator.validate_terms("t", &[]);
    assert!(result.is_ok());
    assert!(unknown.is_empty());
}

#[test]
fn capability_validator_is_constructed_by_new_and_default() {
    let _a = CapabilityAwareValidator::new();
    let _b = CapabilityAwareValidator::default();
}

#[test]
fn curation_errors_have_their_messages() {
    assert_eq!(CurationError::InvocationNotFound("i".into()).message(), "Invocation not found: i");
    assert_eq!(CurationError::OcapViolation("o".into()).message(), "OCAP violation: o");
    assert_eq!(CurationError::Evaluation("e".into()).message(), "Evaluation error: e");
}

#[test]
fn validator_stub_accepts_any_input() {
    let validator = CapabilityAwareValidator::new();
    let result = validator.validate_capabilities("any", &vec![], &Vec::<String>::new());
    assert!(result.is_ok());
}

#[test]
fn capability_validator_validator_default_is_passthrough() {
    let validator = CapabilityAwareValidator;
    let result = validator.validate_capabilities("test", &vec!["cap.read".into()], &Vec::<String>::new());
    assert!(result.is_ok());
}
