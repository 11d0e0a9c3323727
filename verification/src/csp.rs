//! Isolated stage execution: the configuration of pre, core and post
//! stages, how errors are classified, and what a stage run does after each
//! attempt (finish, or wait and retry).
use vstd::prelude::*;
use vstd::string::*;
use serde_json::Value;
use crate::composition::pow2;
use crate::decimal::{decimal, push_decimal};
use crate::ports::{TemplateError, error_text};
use crate::text::has_sub;

verus! {

/// Stage timeout used when a configuration gives none, in milliseconds.
pub fn default_timeout() -> (r: u64)
    ensures
        r == 5000,
{
    5000
}

/// Channel capacity used when a configuration gives none.
pub fn default_channel_capacity() -> (r: usize)
    ensures
        r == 1,
{
    1
}

/// One stage.
#[derive(Debug, Clone)]
pub struct StageConfig {
    pub name: String,
    /// Timeout of one attempt, in milliseconds.
    pub timeout_ms: u64,
    /// Whether a failed attempt may be retried.
    pub retry_on_failure: bool,
}

/// Retry policy of stage execution.
#[derive(Debug, Clone, Copy, Default)]
pub struct StageRetryConfig {
    pub max_retries: u32,
    /// Delay before the first retry, in milliseconds; it doubles with each retry.
    pub initial_delay_ms: u64,
    /// Cap on the delay, in milliseconds.
    pub max_delay_ms: u64,
}

/// How stages are executed.
#[derive(Debug, Clone, Default)]
pub struct StageExecutionConfig {
    pub default_timeout_ms: u64,
    pub channel_capacity: usize,
    pub retry: StageRetryConfig,
}

/// The stages, by phase.
#[derive(Debug, Clone, Default)]
pub struct StageDefinitions {
    pub pre_process: Vec<StageConfig>,
    pub core_process: Vec<StageConfig>,
    pub post_process: Vec<StageConfig>,
}

/// How stage errors are handled.
#[derive(Debug, Clone, Default)]
pub struct ErrorHandlingConfig {
    pub classification: ErrorClassification,
    pub escalation: EscalationConfig,
}

/// Text patterns that mark an error as retryable or not.
#[derive(Debug, Clone, Default)]
pub struct ErrorClassification {
    pub retryable: Vec<String>,
    pub non_retryable: Vec<String>,
}

/// What to do when a stage cannot complete.
#[derive(Debug, Clone, Default)]
pub struct EscalationConfig {
    pub on_max_retries_exceeded: String,
    pub on_stage_panic: String,
    pub on_channel_failure: String,
}

/// Stage isolation settings.
#[derive(Debug, Clone, Default)]
pub struct CspConfig {
    pub stage_execution: StageExecutionConfig,
    pub stages: StageDefinitions,
    pub error_handling: ErrorHandlingConfig,
}

/// The result of running a stage.
#[derive(Debug)]
pub struct StageResult {
    pub stage_name: String,
    pub output: Result<Value, TemplateError>,
    pub duration_ms: u64,
}

/// How one attempt of a stage ended.
pub enum StageOutcome {
    /// The stage produced its output.
    Completed(Value),
    /// The stage failed.
    Failed(TemplateError),
    /// The attempt ran out of time.
    TimedOut,
}

/// What to do after an attempt.
pub enum StageAction {
    /// The stage is done, with this output.
    Finish(Result<Value, TemplateError>),
    /// Wait `delay_ms` milliseconds, then make the next attempt.
    Retry { delay_ms: u64 },
}

/// An error is retryable when its text contains one of the retryable patterns.
pub open spec fn is_retryable_text(patterns: Seq<String>, text: Seq<char>) -> bool {
    exists|i: int| 0 <= i < patterns.len() && has_sub(text, (#[trigger] patterns[i])@)
}

/// How many retries a stage gets.
pub open spec fn max_retries_of(config: CspConfig, stage: StageConfig) -> u32 {
    if stage.retry_on_failure { config.stage_execution.retry.max_retries } else { 0 }
}

/// The backoff before retry number `attempt + 1`: the initial delay doubled
/// `attempt` times, capped.
pub open spec fn stage_backoff(r: StageRetryConfig, attempt: u32) -> int {
    let d = r.initial_delay_ms * pow2(attempt as nat);
    if d <= r.max_delay_ms { d } else { r.max_delay_ms as int }
}

/// The backoff before retry number `attempt + 1` fits in 64 bits.
pub open spec fn backoff_fits(r: StageRetryConfig, attempt: u32) -> bool {
    pow2(attempt as nat) <= u64::MAX && r.initial_delay_ms * pow2(attempt as nat) <= u64::MAX
}

/// The text of the error for a stage that timed out on its last attempt.
pub open spec fn timeout_text(stage: StageConfig, attempt: u32) -> Seq<char> {
    "Stage '"@ + stage.name@ + "' timed out after "@ + decimal(attempt as nat + 1) + " attempts (timeout: "@
        + decimal(stage.timeout_ms as nat) + "ms)"@
}

/// Whether `error` is retryable under `config`: its text contains a retryable
/// pattern. An error that matches no pattern, or only a non-retryable one, is
/// not retryable.
pub fn classify_error(config: &CspConfig, error: &TemplateError) -> (r: bool)
    ensures
        r == is_retryable_text(config.error_handling.classification.retryable@, error_text(*error)),
{
    let text = crate::text::str_chars(error.message().as_str());
    let patterns = &config.error_handling.classification.retryable;
    let mut i: usize = 0;
    while i < patterns.len()
        invariant
            i <= patterns@.len(),
            text@ == error_text(*error),
            patterns == &config.error_handling.classification.retryable,
            forall|j: int| 0 <= j < i ==> !has_sub(text@, (#[trigger] patterns@[j])@),
        decreases patterns@.len() - i,
    {
        if crate::text::contains_str(&text, patterns[i].as_str()) {
            proof {
                assert(has_sub(error_text(*error), patterns@[i as int]@));
            }
            return true;
        }
        i = i + 1;
    }
    false
}

/// How many retries `stage` gets under `config`.
pub fn stage_max_retries(config: &CspConfig, stage: &StageConfig) -> (r: u32)
    ensures
        r == max_retries_of(*config, *stage),
{
    if stage.retry_on_failure { config.stage_execution.retry.max_retries } else { 0 }
}

/// The backoff before retry number `attempt + 1`.
fn backoff(r: &StageRetryConfig, attempt: u32) -> (d: u64)
    requires
        backoff_fits(*r, attempt),
    ensures
        d == stage_backoff(*r, attempt),
{
    let mut delay: u64 = r.initial_delay_ms;
    let mut i: u32 = 0;
    assert(r.initial_delay_ms * pow2(0) == r.initial_delay_ms) by (nonlinear_arith)
        requires pow2(0) == 1;
    while i < attempt
        invariant
            i <= attempt,
            delay == r.initial_delay_ms * pow2(i as nat),
            r.initial_delay_ms * pow2(attempt as nat) <= u64::MAX,
        decreases attempt - i,
    {
        proof {
            crate::composition::lemma_pow2_mono(i as nat + 1, attempt as nat);
            assert(pow2(i as nat + 1) == 2 * pow2(i as nat));
            assert(r.initial_delay_ms * pow2(i as nat + 1) == 2 * (r.initial_delay_ms * pow2(i as nat))) by (nonlinear_arith)
                requires pow2(i as nat + 1) == 2 * pow2(i as nat);
            assert(r.initial_delay_ms * pow2(i as nat + 1) <= r.initial_delay_ms * pow2(attempt as nat)) by (nonlinear_arith)
                requires pow2(i as nat + 1) <= pow2(attempt as nat);
        }
        delay = delay * 2;
        i = i + 1;
    }
    if delay < r.max_delay_ms { delay } else { r.max_delay_ms }
}

/// `outcome` asks for a retry where one is left: a retryable failure or a
/// timeout.
pub open spec fn outcome_retries(config: CspConfig, outcome: StageOutcome) -> bool {
    match outcome {
        StageOutcome::Completed(_) => false,
        StageOutcome::Failed(e) => is_retryable_text(config.error_handling.classification.retryable@, error_text(e)),
        StageOutcome::TimedOut => true,
    }
}

/// The attempts a stage makes from attempt number `attempt` on when every
/// attempt ends with `outcome`: this one, and one more whenever
/// `next_stage_action` answers it with a retry.
pub open spec fn attempts_from(config: CspConfig, stage: StageConfig, outcome: StageOutcome, attempt: nat) -> nat
    decreases max_retries_of(config, stage) - attempt,
{
    if attempt < max_retries_of(config, stage) && outcome_retries(config, outcome) {
        1 + attempts_from(config, stage, outcome, attempt + 1)
    } else {
        1
    }
}

/// From attempt number `attempt` on, the attempts left are this one and
/// the retries left.
proof fn lemma_attempts_left(config: CspConfig, stage: StageConfig, outcome: StageOutcome, attempt: nat)
    requires
        attempt <= max_retries_of(config, stage),
    ensures
        attempts_from(config, stage, outcome, attempt) == 1 + (if outcome_retries(config, outcome) {
            max_retries_of(config, stage) - attempt
        } else {
            0
        }),
    decreases max_retries_of(config, stage) - attempt,
{
    if attempt < max_retries_of(config, stage) && outcome_retries(config, outcome) {
        lemma_attempts_left(config, stage, outcome, attempt + 1);
    }
}

/// A stage whose every attempt ends with the same outcome is attempted once
/// plus once per retry it is allowed when that outcome is a retryable
/// failure or a timeout, and once otherwise: a stage without
/// `retry_on_failure` is attempted once.
pub proof fn lemma_stage_attempt_count(config: CspConfig, stage: StageConfig, outcome: StageOutcome)
    ensures
        attempts_from(config, stage, outcome, 0) == 1 + (if outcome_retries(config, outcome) {
            max_retries_of(config, stage) as int
        } else {
            0
        }),
        !stage.retry_on_failure ==> attempts_from(config, stage, outcome, 0) == 1,
{
    lemma_attempts_left(config, stage, outcome, 0);
}

/// What to do after attempt number `attempt` (counted from zero) of `stage`
/// ended with `outcome`: an output finishes the stage; a retryable failure
/// or a timeout is retried after the backoff while retries are left; any
/// other failure, or one with no retry left, finishes the stage with its error.
pub fn next_stage_action(config: &CspConfig, stage: &StageConfig, attempt: u32, outcome: StageOutcome) -> (r: StageAction)
    requires
        attempt <= max_retries_of(*config, *stage),
        attempt < max_retries_of(*config, *stage) && outcome_retries(*config, outcome)
            ==> backoff_fits(config.stage_execution.retry, attempt),
    ensures
        r is Retry ==> attempt < max_retries_of(*config, *stage),
        r is Retry <==> attempt < max_retries_of(*config, *stage) && outcome_retries(*config, outcome),
        match outcome {
            StageOutcome::Completed(v) => r == StageAction::Finish(Ok(v)),
            StageOutcome::Failed(e) => if is_retryable_text(config.error_handling.classification.retryable@, error_text(e))
                && attempt < max_retries_of(*config, *stage) {
                r == StageAction::Retry { delay_ms: stage_backoff(config.stage_execution.retry, attempt) as u64 }
            } else {
                r == StageAction::Finish(Err(e))
            },
            StageOutcome::TimedOut => if attempt < max_retries_of(*config, *stage) {
                r == StageAction::Retry { delay_ms: stage_backoff(config.stage_execution.retry, attempt) as u64 }
            } else {
                r matches StageAction::Finish(Err(TemplateError::Manifest(m))) && m@ == timeout_text(*stage, attempt)
            },
        },
{
    let max_retries = stage_max_retries(config, stage);
    match outcome {
        StageOutcome::Completed(v) => StageAction::Finish(Ok(v)),
        StageOutcome::Failed(e) => {
            let retryable = classify_error(config, &e);
            if !retryable || attempt >= max_retries {
                StageAction::Finish(Err(e))
            } else {
                StageAction::Retry { delay_ms: backoff(&config.stage_execution.retry, attempt) }
            }
        },
        StageOutcome::TimedOut => {
            if attempt >= max_retries {
                let mut m = String::from_str("Stage '");
                m.append(stage.name.as_str());
                m.append("' timed out after ");
                push_decimal(&mut m, attempt as u64 + 1);
                m.append(" attempts (timeout: ");
                push_decimal(&mut m, stage.timeout_ms);
                m.append("ms)");
                StageAction::Finish(Err(TemplateError::Manifest(m)))
            } else {
                StageAction::Retry { delay_ms: backoff(&config.stage_execution.retry, attempt) }
            }
        },
    }
}

} // verus!
