use hkask_templates::csp::{
    classify_error, default_channel_capacity, default_timeout, next_stage_action, stage_max_retries, CspConfig,
    ErrorClassification, ErrorHandlingConfig, StageAction, StageConfig, StageExecutionConfig, StageOutcome,
    StageRetryConfig,
};
use hkask_templates::ports::TemplateError;
use serde_json::Value;

fn config(max_retries: u32) -> CspConfig {
    CspConfig {
        stage_execution: StageExecutionConfig {
            default_timeout_ms: default_timeout(),
            channel_capacity: default_channel_capacity(),
            retry: StageRetryConfig { max_retries, initial_delay_ms: 100, max_delay_ms: 350 },
        },
        error_handling: ErrorHandlingConfig {
            classification: ErrorClassification {
                retryable: vec!["timeout".to_string(), "unavailable".to_string()],
                non_retryable: vec!["Validation".to_string()],
            },
            ..Default::default()
        },
        ..Default::default()
    }
}

fn stage(retry: bool) -> StageConfig {
    StageConfig { name: "gather".to_string(), timeout_ms: 5000, retry_on_failure: retry }
}

#[test]
fn defaults() {
    assert_eq!(default_timeout(), 5000);
    assert_eq!(default_channel_capacity(), 1);
}

#[test]
fn errors_are_retryable_only_when_a_retryable_pattern_matches() {
    let c = config(2);
    assert!(classify_error(&c, &TemplateError::Inference("service unavailable".into())));
    // Retryable patterns are consulted before the non-retryable ones.
    assert!(classify_error(&c, &TemplateError::Validation("timeout".into())));
    assert!(!classify_error(&c, &TemplateError::Validation("bad input".into())));
    assert!(!classify_error(&c, &TemplateError::Render("bad template".into())));
}

#[test]
fn retries_follow_the_backoff_until_exhausted() {
    let c = config(3);
    let s = stage(true);
    assert_eq!(stage_max_retries(&c, &s), 3);
    assert_eq!(stage_max_retries(&c, &stage(false)), 0);
    let delays: Vec<u64> = (0..3)
        .map(|attempt| match next_stage_action(&c, &s, attempt, StageOutcome::TimedOut) {
            StageAction::Retry { delay_ms } => delay_ms,
            StageAction::Finish(_) => panic!("expected a retry"),
        })
        .collect();
    assert_eq!(delays, vec![100, 200, 350]);
    match next_stage_action(&c, &s, 3, StageOutcome::TimedOut) {
        StageAction::Finish(Err(TemplateError::Manifest(m))) => {
            assert_eq!(m, "Stage 'gather' timed out after 4 attempts (timeout: 5000ms)")
        }
        _ => panic!("expected the timeout error"),
    }
}

#[test]
fn outputs_finish_and_permanent_failures_are_not_retried() {
    let c = config(3);
    let s = stage(true);
    match next_stage_action(&c, &s, 0, StageOutcome::Completed(Value::Bool(true))) {
        StageAction::Finish(Ok(v)) => assert_eq!(v, Value::Bool(true)),
        _ => panic!("expected the output"),
    }
    match next_stage_action(&c, &s, 0, StageOutcome::Failed(TemplateError::Render("broken".into()))) {
        StageAction::Finish(Err(TemplateError::Render(m))) => assert_eq!(m, "broken"),
        _ => panic!("expected the failure"),
    }
    match next_stage_action(&c, &s, 1, StageOutcome::Failed(TemplateError::Inference("timeout".into()))) {
        StageAction::Retry { delay_ms } => assert_eq!(delay_ms, 200),
        _ => panic!("expected a retry"),
    }
    match next_stage_action(&c, &stage(false), 0, StageOutcome::Failed(TemplateError::Inference("timeout".into()))) {
        StageAction::Finish(Err(_)) => {}
        _ => panic!("no retry without retry_on_failure"),
    }
}

fn attempts_until_finished(c: &CspConfig, s: &StageConfig, outcome: impl Fn() -> StageOutcome) -> (u32, StageAction) {
    let mut attempt = 0;
    loop {
        match next_stage_action(c, s, attempt, outcome()) {
            StageAction::Retry { .. } => attempt += 1,
            finish => return (attempt + 1, finish),
        }
    }
}

#[test]
fn a_stage_that_always_fails_is_attempted_once_plus_its_retries() {
    let c = config(3);
    let retryable = || StageOutcome::Failed(TemplateError::Inference("service unavailable".into()));
    let permanent = || StageOutcome::Failed(TemplateError::Render("broken".into()));
    let (n, last) = attempts_until_finished(&c, &stage(true), retryable);
    assert_eq!(n, 4);
    assert!(matches!(last, StageAction::Finish(Err(TemplateError::Inference(m))) if m == "service unavailable"));
    assert_eq!(attempts_until_finished(&c, &stage(true), permanent).0, 1);
    assert_eq!(attempts_until_finished(&c, &stage(false), retryable).0, 1);
    assert_eq!(attempts_until_finished(&c, &stage(true), || StageOutcome::TimedOut).0, 4);
}
