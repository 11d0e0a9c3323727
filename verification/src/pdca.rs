//! The iterative cascade of a bundle manifest, as decisions: the order in
//! which steps run, where each step hands control, when a pass ends the run
//! and how the gas budget and the nesting limit bound it. The work of a step
//! (inference, rendering, tool calls) and the quality read from the context
//! are done by the caller, which hands the results back.
use vstd::prelude::*;
use vstd::string::*;
use crate::bundle::BundleManifestStep;
use crate::decimal::{decimal, push_decimal};
use crate::ports::TemplateError;

verus! {

// ── Step order ───────────────────────────────────────────────────────────────

/// `order` lists every step once, by ascending ordinal, steps of equal
/// ordinal in the order in which they were given.
pub open spec fn ordered_by_ordinal(steps: Seq<BundleManifestStep>, order: Seq<usize>) -> bool {
    &&& order.len() == steps.len()
    &&& forall|i: int| 0 <= i < order.len() ==> (#[trigger] order[i]) < steps.len()
    &&& forall|i: int, j: int| 0 <= i < j < order.len() ==> order[i] != order[j]
    &&& forall|i: int, j: int|
        0 <= i < j < order.len() ==> steps[order[i] as int].ordinal <= steps[order[j] as int].ordinal
    &&& forall|i: int, j: int|
        0 <= i < j < order.len() && steps[order[i] as int].ordinal == steps[order[j] as int].ordinal
            ==> order[i] < order[j]
}

/// The positions of the steps in the order in which a cascade runs them:
/// by ascending ordinal, a stable sort.
pub fn cascade_order(steps: &Vec<BundleManifestStep>) -> (r: Vec<usize>)
    ensures
        ordered_by_ordinal(steps@, r@),
{
    let mut r: Vec<usize> = Vec::new();
    let mut k: usize = 0;
    while k < steps.len()
        invariant
            k <= steps@.len(),
            r@.len() == k,
            forall|i: int| 0 <= i < r@.len() ==> (#[trigger] r@[i]) < k,
            forall|i: int, j: int| 0 <= i < j < r@.len() ==> r@[i] != r@[j],
            forall|i: int, j: int|
                0 <= i < j < r@.len() ==> steps@[r@[i] as int].ordinal <= steps@[r@[j] as int].ordinal,
            forall|i: int, j: int|
                0 <= i < j < r@.len() && steps@[r@[i] as int].ordinal == steps@[r@[j] as int].ordinal
                    ==> r@[i] < r@[j],
        decreases steps@.len() - k,
    {
        let ord = steps[k].ordinal;
        let mut p: usize = 0;
        while p < r.len() && steps[r[p]].ordinal <= ord
            invariant
                p <= r@.len(),
                k < steps@.len(),
                ord == steps@[k as int].ordinal,
                forall|i: int| 0 <= i < r@.len() ==> (#[trigger] r@[i]) < k,
                forall|i: int| 0 <= i < p ==> steps@[r@[i] as int].ordinal <= ord,
            decreases r@.len() - p,
        {
            p = p + 1;
        }
        let ghost old_r = r@;
        proof {
            assert forall|i: int| p <= i < old_r.len() implies steps@[old_r[i] as int].ordinal > ord by {
                if steps@[old_r[i] as int].ordinal <= ord {
                    assert(steps@[old_r[p as int] as int].ordinal <= steps@[old_r[i] as int].ordinal);
                }
            }
        }
        r.insert(p, k);
        proof {
            assert(r@ == old_r.insert(p as int, k));
            assert forall|i: int| 0 <= i < r@.len() implies (#[trigger] r@[i]) < k + 1 by {
                if i < p {
                    assert(r@[i] == old_r[i]);
                } else if i > p {
                    assert(r@[i] == old_r[i - 1]);
                }
            }
            assert forall|i: int, j: int| 0 <= i < j < r@.len() implies r@[i] != r@[j] by {
                if i < p && j < p {
                } else if i < p && j == p {
                    assert(old_r[i] < k);
                } else if i < p && j > p {
                    assert(r@[j] == old_r[j - 1]);
                } else if i == p {
                    assert(r@[j] == old_r[j - 1]);
                    assert(old_r[j - 1] < k);
                } else {
                    assert(r@[i] == old_r[i - 1]);
                    assert(r@[j] == old_r[j - 1]);
                }
            }
            assert forall|i: int, j: int|
                0 <= i < j < r@.len() implies steps@[r@[i] as int].ordinal <= steps@[r@[j] as int].ordinal by {
                if i < p && j < p {
                } else if i < p && j == p {
                } else if i < p && j > p {
                    assert(r@[j] == old_r[j - 1]);
                } else if i == p {
                    assert(r@[j] == old_r[j - 1]);
                } else {
                    assert(r@[i] == old_r[i - 1]);
                    assert(r@[j] == old_r[j - 1]);
                }
            }
            assert forall|i: int, j: int|
                0 <= i < j < r@.len() && steps@[r@[i] as int].ordinal == steps@[r@[j] as int].ordinal
                    implies r@[i] < r@[j] by {
                if i < p && j < p {
                } else if i < p && j == p {
                    assert(old_r[i] < k);
                } else if i < p && j > p {
                    assert(r@[j] == old_r[j - 1]);
                } else if i == p {
                    assert(r@[j] == old_r[j - 1]);
                } else {
                    assert(r@[i] == old_r[i - 1]);
                    assert(r@[j] == old_r[j - 1]);
                }
            }
        }
        k = k + 1;
    }
    r
}

/// The first position of `ordinal` in `ordinals`.
pub open spec fn position_of(ordinals: Seq<u32>, ordinal: u32) -> Option<int>
    decreases ordinals.len(),
{
    if ordinals.len() == 0 {
        None
    } else if ordinals[0] == ordinal {
        Some(0)
    } else {
        match position_of(ordinals.drop_first(), ordinal) {
            Some(i) => Some(i + 1),
            None => None,
        }
    }
}

proof fn lemma_position_in_range(ordinals: Seq<u32>, ordinal: u32)
    ensures
        position_of(ordinals, ordinal) matches Some(i) ==> 0 <= i < ordinals.len() && ordinals[i] == ordinal,
    decreases ordinals.len(),
{
    if ordinals.len() > 0 && ordinals[0] != ordinal {
        lemma_position_in_range(ordinals.drop_first(), ordinal);
    }
}

/// The first position of `ordinal` in `ordinals`.
pub fn find_position(ordinals: &Vec<u32>, ordinal: u32) -> (r: Option<usize>)
    ensures
        r matches Some(i) ==> position_of(ordinals@, ordinal) == Some(i as int),
        r is None ==> position_of(ordinals@, ordinal) is None,
{
    let mut i: usize = 0;
    proof {
        assert(ordinals@.skip(0) =~= ordinals@);
    }
    while i < ordinals.len()
        invariant
            i <= ordinals@.len(),
            position_of(ordinals@, ordinal) == match position_of(ordinals@.skip(i as int), ordinal) {
                Some(k) => Some(k + i),
                None => None,
            },
        decreases ordinals@.len() - i,
    {
        proof {
            assert(ordinals@.skip(i as int).drop_first() =~= ordinals@.skip(i + 1));
        }
        if ordinals[i] == ordinal {
            return Some(i);
        }
        i = i + 1;
    }
    proof {
        assert(ordinals@.skip(i as int).len() == 0);
    }
    None
}

// ── Steps ────────────────────────────────────────────────────────────────────

/// What a step does, by its action.
#[derive(Debug, Clone, Copy, PartialEq, Eq, Structural)]
pub enum StepKind {
    /// `abort`: the run has converged.
    Abort,
    /// `escalate`: the run is blocked.
    Escalate,
    /// `choice`: a branch may jump to another step.
    Choice,
    /// `loop`: the pass re-enters the cascade.
    Loop,
    /// `select`: inference that spends gas.
    Select,
    /// `populate`: a template is rendered.
    Populate,
    /// `execute`, `feedback`, `validate` or `retrieve`: a tool is invoked.
    Invoke,
    /// Any other action.
    Unknown,
}

/// The kind of the action named `a`.
pub open spec fn kind_of(a: Seq<char>) -> StepKind {
    if a == "abort"@ {
        StepKind::Abort
    } else if a == "escalate"@ {
        StepKind::Escalate
    } else if a == "choice"@ {
        StepKind::Choice
    } else if a == "loop"@ {
        StepKind::Loop
    } else if a == "select"@ {
        StepKind::Select
    } else if a == "populate"@ {
        StepKind::Populate
    } else if a == "execute"@ || a == "feedback"@ || a == "validate"@ || a == "retrieve"@ {
        StepKind::Invoke
    } else {
        StepKind::Unknown
    }
}

/// The kind of the action named `action`.
pub fn step_kind(action: &str) -> (r: StepKind)
    ensures
        r == kind_of(action@),
{
    if crate::text::str_eq(action, "abort") {
        StepKind::Abort
    } else if crate::text::str_eq(action, "escalate") {
        StepKind::Escalate
    } else if crate::text::str_eq(action, "choice") {
        StepKind::Choice
    } else if crate::text::str_eq(action, "loop") {
        StepKind::Loop
    } else if crate::text::str_eq(action, "select") {
        StepKind::Select
    } else if crate::text::str_eq(action, "populate") {
        StepKind::Populate
    } else if crate::text::str_eq(action, "execute") || crate::text::str_eq(action, "feedback")
        || crate::text::str_eq(action, "validate") || crate::text::str_eq(action, "retrieve") {
        StepKind::Invoke
    } else {
        StepKind::Unknown
    }
}

// ── The run ──────────────────────────────────────────────────────────────────

/// The bounds of a run.
#[derive(Debug, Clone, Copy)]
pub struct CascadeLimits {
    /// Passes allowed; at least one.
    pub max_iterations: u32,
    /// Passes that must end before the run may converge.
    pub min_iterations: u32,
    /// Gas allocated to the run.
    pub gas_cap: u64,
    /// Gas spent by each `select` step.
    pub gas_cost_per_iteration: u64,
    /// Whether spending the whole allocation ends the run.
    pub gas_hard_limit: bool,
    /// Re-entries of the cascade allowed.
    pub depth_limit: u8,
}

impl CascadeLimits {
    /// The bounds of a run; a `max_iterations` of 0 asks for a single pass.
    pub fn new(
        max_iterations: u32,
        min_iterations: u32,
        gas_cap: u64,
        gas_cost_per_iteration: u64,
        gas_hard_limit: bool,
        depth_limit: u8,
    ) -> (r: CascadeLimits)
        ensures
            r.max_iterations == (if max_iterations == 0 { 1 } else { max_iterations }),
            r.min_iterations == min_iterations,
            r.gas_cap == gas_cap,
            r.gas_cost_per_iteration == gas_cost_per_iteration,
            r.gas_hard_limit == gas_hard_limit,
            r.depth_limit == depth_limit,
    {
        CascadeLimits {
            max_iterations: if max_iterations == 0 { 1 } else { max_iterations },
            min_iterations,
            gas_cap,
            gas_cost_per_iteration,
            gas_hard_limit,
            depth_limit,
        }
    }

    /// The gas spent after one more `select` step, saturating.
    pub fn charged(&self, gas_used: u64) -> (r: u64)
        ensures
            r == charge(*self, gas_used),
    {
        gas_used.saturating_add(self.gas_cost_per_iteration)
    }
}

/// The gas spent after one more `select` step, saturating at `u64::MAX`.
pub open spec fn charge(lim: CascadeLimits, gas_used: u64) -> u64 {
    if gas_used + lim.gas_cost_per_iteration > u64::MAX {
        u64::MAX
    } else {
        (gas_used + lim.gas_cost_per_iteration) as u64
    }
}

/// The allocation is spent and it bounds the run.
pub open spec fn spent(lim: CascadeLimits, gas_used: u64) -> bool {
    lim.gas_hard_limit && gas_used >= lim.gas_cap
}

/// Where a run stands: the pass, the step about to run (a position in the
/// cascade order), the re-entries so far and the gas spent.
#[derive(Debug, Clone, Copy, PartialEq, Eq, Structural)]
pub struct CascadePosition {
    pub iteration: u32,
    pub step: usize,
    pub depth: u8,
    pub gas_used: u64,
}

/// The position of a run before its first step.
pub fn start_position() -> (r: CascadePosition)
    ensures
        r == (CascadePosition { iteration: 1, step: 0, depth: 0, gas_used: 0 }),
{
    CascadePosition { iteration: 1, step: 0, depth: 0, gas_used: 0 }
}

/// A position that a run of `n` steps can reach under `lim`.
pub open spec fn position_ok(p: CascadePosition, lim: CascadeLimits, n: nat) -> bool {
    &&& 1 <= p.iteration <= lim.max_iterations
    &&& p.depth <= lim.depth_limit
    &&& p.step <= n
}

/// How a run ends.
#[derive(Debug, Clone, Copy, PartialEq, Eq, Structural)]
pub enum CascadeExit {
    /// The quality was met: status `converged`, reason `quality_met`.
    Converged,
    /// A step escalated: status `escalated`, reason `obstacle_blocked`.
    Escalated,
    /// Passes, gas or nesting ran out: status `maxed_out`, reason `energy_spent`.
    MaxedOut,
}

impl CascadeExit {
    /// The status written to the convergence report.
    pub fn status(&self) -> (r: &'static str)
        ensures
            r@ == exit_status(*self),
    {
        proof {
            reveal_strlit("converged");
            reveal_strlit("escalated");
            reveal_strlit("maxed_out");
        }
        match self {
            CascadeExit::Converged => "converged",
            CascadeExit::Escalated => "escalated",
            CascadeExit::MaxedOut => "maxed_out",
        }
    }

    /// The reason written to the convergence report.
    pub fn reason(&self) -> (r: &'static str)
        ensures
            r@ == exit_reason(*self),
    {
        proof {
            reveal_strlit("quality_met");
            reveal_strlit("obstacle_blocked");
            reveal_strlit("energy_spent");
        }
        match self {
            CascadeExit::Converged => "quality_met",
            CascadeExit::Escalated => "obstacle_blocked",
            CascadeExit::MaxedOut => "energy_spent",
        }
    }
}

/// The status of an exit.
pub open spec fn exit_status(e: CascadeExit) -> Seq<char> {
    match e {
        CascadeExit::Converged => "converged"@,
        CascadeExit::Escalated => "escalated"@,
        CascadeExit::MaxedOut => "maxed_out"@,
    }
}

/// The reason of an exit.
pub open spec fn exit_reason(e: CascadeExit) -> Seq<char> {
    match e {
        CascadeExit::Converged => "quality_met"@,
        CascadeExit::Escalated => "obstacle_blocked"@,
        CascadeExit::MaxedOut => "energy_spent"@,
    }
}

/// What a step observed, handed back by the caller.
#[derive(Debug, Clone, Copy, PartialEq, Eq, Structural)]
pub enum StepEvent {
    /// The step's condition was false; it did not run.
    Skipped,
    /// The step ran (any step other than `choice` and `loop`).
    Ran,
    /// A `choice` step chose a jump to an ordinal, or none.
    Chose(Option<u32>),
    /// A `loop` step: the ordinal it re-enters from, and whether the quality
    /// read from the context meets the convergence rule.
    Looped { target: u32, quality_met: bool },
}

/// Where the run goes next.
#[derive(Debug, Clone)]
pub enum CascadeMove {
    /// Run on from this position.
    Continue(CascadePosition),
    /// The run ends with a report; the context is its result.
    Finish(CascadeExit, CascadePosition),
    /// The run ends with a report, then fails with the error.
    Fail(CascadeExit, TemplateError),
    /// The run fails with the error and writes no report.
    Stop(TemplateError),
}

/// The message of an escalation at the step of ordinal `o`.
pub open spec fn escalation_message(o: u32, description: Seq<char>) -> Seq<char> {
    "Cascade escalated at step "@ + decimal(o as nat) + ": "@ + description
}

/// The message when the nesting limit `limit` is passed in pass `i`.
pub open spec fn depth_message(limit: u8, i: u32) -> Seq<char> {
    "Matryoshka depth limit ("@ + decimal(limit as nat) + ") exceeded at iteration "@ + decimal(i as nat)
}

/// The message for an action that names no step kind.
pub open spec fn unknown_action_message(a: Seq<char>) -> Seq<char> {
    "Unknown manifest step action: '"@ + a + "'"@
}

/// The position of the next step in the same pass.
pub open spec fn next_step(p: CascadePosition) -> CascadePosition {
    CascadePosition { step: (p.step + 1) as usize, ..p }
}

/// The run may end as converged: enough passes have ended and the quality
/// meets the rule.
pub open spec fn may_converge(p: CascadePosition, lim: CascadeLimits, quality_met: bool) -> bool {
    p.iteration > lim.min_iterations && quality_met
}

/// `m` fails with the report `e` and a manifest error whose text is `msg`.
pub open spec fn fails_with(m: CascadeMove, e: CascadeExit, msg: Seq<char>) -> bool {
    m matches CascadeMove::Fail(x, TemplateError::Manifest(t)) && x == e && t@ == msg
}

/// The move after a `loop` step at `p` that re-enters from `target`.
pub open spec fn loop_move_ok(
    m: CascadeMove,
    p: CascadePosition,
    lim: CascadeLimits,
    ordinals: Seq<u32>,
    target: u32,
    quality_met: bool,
) -> bool {
    let deeper = CascadePosition { depth: (p.depth + 1) as u8, ..p };
    if p.depth + 1 > lim.depth_limit {
        fails_with(m, CascadeExit::MaxedOut, depth_message(lim.depth_limit, p.iteration))
    } else if p.iteration >= lim.max_iterations {
        m == CascadeMove::Finish(CascadeExit::MaxedOut, deeper)
    } else if may_converge(p, lim, quality_met) {
        m == CascadeMove::Finish(CascadeExit::Converged, deeper)
    } else {
        m == CascadeMove::Continue(CascadePosition {
            step: match position_of(ordinals, target) {
                Some(i) => i as usize,
                None => 0,
            },
            ..deeper
        })
    }
}

/// The move after the step at `p`, of ordinal `ordinal`, action `action`
/// and description `description`, observed as `e`.
pub open spec fn advance_ok(
    m: CascadeMove,
    p: CascadePosition,
    lim: CascadeLimits,
    ordinals: Seq<u32>,
    ordinal: u32,
    action: Seq<char>,
    description: Seq<char>,
    e: StepEvent,
) -> bool {
    if e == StepEvent::Skipped {
        m == CascadeMove::Continue(next_step(p))
    } else {
        match kind_of(action) {
            StepKind::Abort => m == CascadeMove::Finish(CascadeExit::Converged, p),
            StepKind::Escalate => fails_with(m, CascadeExit::Escalated, escalation_message(ordinal, description)),
            StepKind::Choice => match e {
                StepEvent::Chose(Some(t)) => match position_of(ordinals, t) {
                    Some(i) => m == CascadeMove::Continue(CascadePosition { step: i as usize, ..p }),
                    None => m == CascadeMove::Continue(next_step(p)),
                },
                _ => m == CascadeMove::Continue(next_step(p)),
            },
            StepKind::Loop => match e {
                StepEvent::Looped { target, quality_met } => loop_move_ok(m, p, lim, ordinals, target, quality_met),
                _ => loop_move_ok(m, p, lim, ordinals, 0, false),
            },
            StepKind::Select => {
                let g = charge(lim, p.gas_used);
                if spent(lim, g) {
                    m == CascadeMove::Finish(CascadeExit::MaxedOut, CascadePosition { gas_used: g, ..p })
                } else {
                    m == CascadeMove::Continue(CascadePosition { step: (p.step + 1) as usize, gas_used: g, ..p })
                }
            },
            StepKind::Populate | StepKind::Invoke => m == CascadeMove::Continue(next_step(p)),
            StepKind::Unknown => m matches CascadeMove::Stop(TemplateError::Manifest(t))
                && t@ == unknown_action_message(action),
        }
    }
}

fn depth_error(limit: u8, iteration: u32) -> (r: TemplateError)
    ensures
        r matches TemplateError::Manifest(t) && t@ == depth_message(limit, iteration),
{
    let mut m = String::from_str("Matryoshka depth limit (");
    push_decimal(&mut m, limit as u64);
    m.append(") exceeded at iteration ");
    push_decimal(&mut m, iteration as u64);
    TemplateError::Manifest(m)
}

fn loop_move(
    p: CascadePosition,
    lim: &CascadeLimits,
    ordinals: &Vec<u32>,
    target: u32,
    quality_met: bool,
) -> (m: CascadeMove)
    requires
        position_ok(p, *lim, ordinals@.len()),
        p.step < ordinals@.len(),
    ensures
        loop_move_ok(m, p, *lim, ordinals@, target, quality_met),
        m matches CascadeMove::Continue(q) ==> position_ok(q, *lim, ordinals@.len()) && q.step < ordinals@.len(),
{
    if p.depth >= lim.depth_limit {
        return CascadeMove::Fail(CascadeExit::MaxedOut, depth_error(lim.depth_limit, p.iteration));
    }
    let deeper = CascadePosition { depth: p.depth + 1, ..p };
    if p.iteration >= lim.max_iterations {
        return CascadeMove::Finish(CascadeExit::MaxedOut, deeper);
    }
    if p.iteration > lim.min_iterations && quality_met {
        return CascadeMove::Finish(CascadeExit::Converged, deeper);
    }
    let step = match find_position(ordinals, target) {
        Some(i) => i,
        None => 0,
    };
    proof {
        lemma_position_in_range(ordinals@, target);
    }
    CascadeMove::Continue(CascadePosition { step, ..deeper })
}

/// The move after the step at `p`: `step` is the step at that position of
/// the cascade order, `ordinals` the ordinals in that order, and `e` what
/// the caller observed when it ran the step.
pub fn advance(
    p: CascadePosition,
    lim: &CascadeLimits,
    ordinals: &Vec<u32>,
    step: &BundleManifestStep,
    e: StepEvent,
) -> (m: CascadeMove)
    requires
        position_ok(p, *lim, ordinals@.len()),
        p.step < ordinals@.len(),
    ensures
        advance_ok(m, p, *lim, ordinals@, step.ordinal, step.action@, step.description@, e),
        m matches CascadeMove::Continue(q) ==> position_ok(q, *lim, ordinals@.len())
            && q.iteration == p.iteration && q.depth >= p.depth && q.gas_used >= p.gas_used,
{
    let n = ordinals.len();
    if e == StepEvent::Skipped {
        return CascadeMove::Continue(CascadePosition { step: p.step + 1, ..p });
    }
    match step_kind(step.action.as_str()) {
        StepKind::Abort => CascadeMove::Finish(CascadeExit::Converged, p),
        StepKind::Escalate => {
            let mut m = String::from_str("Cascade escalated at step ");
            push_decimal(&mut m, step.ordinal as u64);
            m.append(": ");
            m.append(step.description.as_str());
            CascadeMove::Fail(CascadeExit::Escalated, TemplateError::Manifest(m))
        },
        StepKind::Choice => {
            match e {
                StepEvent::Chose(Some(t)) => match find_position(ordinals, t) {
                    Some(i) => {
                        proof {
                            lemma_position_in_range(ordinals@, t);
                        }
                        CascadeMove::Continue(CascadePosition { step: i, ..p })
                    },
                    None => CascadeMove::Continue(CascadePosition { step: p.step + 1, ..p }),
                },
                _ => CascadeMove::Continue(CascadePosition { step: p.step + 1, ..p }),
            }
        },
        StepKind::Loop => {
            match e {
                StepEvent::Looped { target, quality_met } => loop_move(p, lim, ordinals, target, quality_met),
                _ => loop_move(p, lim, ordinals, 0, false),
            }
        },
        StepKind::Select => {
            let g = lim.charged(p.gas_used);
            if lim.gas_hard_limit && g >= lim.gas_cap {
                CascadeMove::Finish(CascadeExit::MaxedOut, CascadePosition { gas_used: g, ..p })
            } else {
                CascadeMove::Continue(CascadePosition { step: p.step + 1, gas_used: g, ..p })
            }
        },
        StepKind::Populate | StepKind::Invoke => CascadeMove::Continue(CascadePosition { step: p.step + 1, ..p }),
        StepKind::Unknown => {
            let mut m = String::from_str("Unknown manifest step action: '");
            m.append(step.action.as_str());
            m.append("'");
            CascadeMove::Stop(TemplateError::Manifest(m))
        },
    }
}

/// The allocation is spent at the end of a pass; the run then ends as
/// maxed out before the pass's quality is computed.
pub fn pass_spent(p: CascadePosition, lim: &CascadeLimits) -> (r: bool)
    ensures
        r == spent(*lim, p.gas_used),
{
    lim.gas_hard_limit && p.gas_used >= lim.gas_cap
}

/// The move at the end of a pass: the gas rule, then the pass limit, then
/// convergence, then the nesting limit; else the next pass starts at the
/// first step.
pub open spec fn close_ok(m: CascadeMove, p: CascadePosition, lim: CascadeLimits, quality_met: bool) -> bool {
    if spent(lim, p.gas_used) {
        m == CascadeMove::Finish(CascadeExit::MaxedOut, p)
    } else if p.iteration >= lim.max_iterations {
        m == CascadeMove::Finish(CascadeExit::MaxedOut, p)
    } else if may_converge(p, lim, quality_met) {
        m == CascadeMove::Finish(CascadeExit::Converged, p)
    } else if p.depth + 1 > lim.depth_limit {
        fails_with(m, CascadeExit::MaxedOut, depth_message(lim.depth_limit, p.iteration))
    } else {
        m == CascadeMove::Continue(CascadePosition {
            iteration: (p.iteration + 1) as u32,
            step: 0,
            depth: (p.depth + 1) as u8,
            gas_used: p.gas_used,
        })
    }
}

/// The move at the end of a pass, with whether the quality read from the
/// context meets the convergence rule.
pub fn close_pass(p: CascadePosition, lim: &CascadeLimits, quality_met: bool) -> (m: CascadeMove)
    requires
        1 <= p.iteration <= lim.max_iterations,
        p.depth <= lim.depth_limit,
    ensures
        close_ok(m, p, *lim, quality_met),
        m matches CascadeMove::Continue(q) ==> position_ok(q, *lim, 0) && q.iteration == p.iteration + 1,
{
    if lim.gas_hard_limit && p.gas_used >= lim.gas_cap {
        return CascadeMove::Finish(CascadeExit::MaxedOut, p);
    }
    if p.iteration >= lim.max_iterations {
        return CascadeMove::Finish(CascadeExit::MaxedOut, p);
    }
    if p.iteration > lim.min_iterations && quality_met {
        return CascadeMove::Finish(CascadeExit::Converged, p);
    }
    if p.depth >= lim.depth_limit {
        return CascadeMove::Fail(CascadeExit::MaxedOut, depth_error(lim.depth_limit, p.iteration));
    }
    CascadeMove::Continue(CascadePosition {
        iteration: p.iteration + 1,
        step: 0,
        depth: p.depth + 1,
        gas_used: p.gas_used,
    })
}

} // verus!
