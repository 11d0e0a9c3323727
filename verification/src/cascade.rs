//! Cascade composition: a configured sequence of pre, core and post stages run
//! under a depth limit and an energy budget.
use vstd::prelude::*;
use vstd::string::*;
use serde_json::Value;
use crate::graph::names_view;
use crate::ports::TemplateError;

verus! {

/// Maximum cascade depth.
pub const MAX_CASCADE_DEPTH: u8 = 7;

/// Depth limit used when a configuration gives none.
pub fn default_max_depth() -> (r: u8)
    ensures
        r == 7,
{
    7
}

/// Timeout used when a configuration gives none, in milliseconds.
pub fn default_timeout() -> (r: u64)
    ensures
        r == 10000,
{
    10000
}

/// Sub-process depth limit used when a configuration gives none.
pub fn default_max_sub_depth() -> (r: u8)
    ensures
        r == 5,
{
    5
}

/// Attenuation limit used when a configuration gives none.
pub fn default_max_attenuation() -> (r: u8)
    ensures
        r == 7,
{
    7
}

/// Limits of a cascade.
#[derive(Debug, Clone)]
pub struct CascadeLimits {
    /// How many stages deep a cascade may go.
    pub max_depth: u8,
    /// Energy granted to the cascade.
    pub energy_per_level: u64,
    /// Timeout in milliseconds.
    pub timeout_ms: u64,
}

/// Cycle detection settings.
#[derive(Debug, Clone, Default)]
pub struct CycleDetectionConfig {
    pub enabled: bool,
    pub algorithm: String,
    /// The longest path of visited templates that is accepted.
    pub max_path_length: usize,
    pub on_cycle_detected: String,
}

/// The stages of a template cascade, by phase.
#[derive(Debug, Clone, Default)]
pub struct TemplateCascadeConfig {
    pub pre: Vec<CascadeStage>,
    pub core: Vec<CascadeStage>,
    pub post: Vec<CascadeStage>,
}

/// One cascade stage.
#[derive(Debug, Clone)]
pub struct CascadeStage {
    pub name: String,
    pub templates: Vec<String>,
    pub condition: Option<String>,
}

/// Manifest cascade settings.
#[derive(Debug, Clone, Default)]
pub struct ManifestCascadeConfig {
    pub sub_process: SubProcessConfig,
    pub parallel: ParallelConfig,
}

/// Sub-process settings.
#[derive(Debug, Clone, Default)]
pub struct SubProcessConfig {
    pub enabled: bool,
    pub max_depth: u8,
    pub inheritance: InheritanceConfig,
}

/// What a sub-process inherits.
#[derive(Debug, Clone, Default)]
pub struct InheritanceConfig {
    pub capabilities: String,
    pub energy: String,
    pub context: String,
}

/// Parallel execution settings.
#[derive(Debug, Clone, Default)]
pub struct ParallelConfig {
    pub enabled: bool,
    pub max_concurrent: usize,
    pub sync: SyncConfig,
}

/// Synchronisation of parallel branches.
#[derive(Debug, Clone, Default)]
pub struct SyncConfig {
    pub strategy: String,
    pub timeout_ms: u64,
}

/// Energy settings.
#[derive(Debug, Clone, Default)]
pub struct EnergyConfig {
    pub budget: BudgetConfig,
    pub degradation: DegradationConfig,
    pub tracking: TrackingConfig,
}

/// Energy budget.
#[derive(Debug, Clone, Default)]
pub struct BudgetConfig {
    pub total_per_cascade: u64,
    pub reserve_percent: u8,
}

/// What to do as the energy runs low.
#[derive(Debug, Clone, Default)]
pub struct DegradationConfig {
    pub at_80_percent: String,
    pub at_90_percent: String,
    pub at_95_percent: String,
}

/// Energy tracking settings.
#[derive(Debug, Clone, Default)]
pub struct TrackingConfig {
    pub emit_cns_spans: bool,
    pub track_per_stage: bool,
    pub log_budget_remaining: bool,
}

/// Capability settings.
#[derive(Debug, Clone, Default)]
pub struct CapabilityConfig {
    pub attenuation: AttenuationConfig,
    pub validation: ValidationConfig,
}

/// Capability attenuation settings.
#[derive(Debug, Clone, Default)]
pub struct AttenuationConfig {
    pub on_dispatch: String,
    pub max_attenuation_level: u8,
    pub minimum: Vec<String>,
}

/// Capability validation settings.
#[derive(Debug, Clone, Default)]
pub struct ValidationConfig {
    pub check_on_each_call: bool,
    pub cache_validated_duration_ms: u64,
}

/// Span emission settings.
#[derive(Debug, Clone, Default)]
pub struct SpanConfig {
    pub emit_on_stage_start: bool,
    pub emit_on_stage_complete: bool,
    pub emit_on_error: bool,
}

/// Variety tracking settings.
#[derive(Debug, Clone, Default)]
pub struct VarietyConfig {
    pub track_template_diversity: bool,
    pub track_manifest_diversity: bool,
    pub alert_on_low_variety: bool,
    pub variety_threshold: u64,
}

/// The settings a cascade runs by.
#[derive(Debug, Clone)]
pub struct CascadeConfig {
    pub cascade_limits: CascadeLimits,
    pub cycle_detection: CycleDetectionConfig,
    pub template_cascade: TemplateCascadeConfig,
    pub manifest_cascade: ManifestCascadeConfig,
    pub energy: EnergyConfig,
    pub capabilities: CapabilityConfig,
}

/// The state of a running cascade.
#[derive(Debug, Clone)]
pub struct CascadeContext {
    pub current_depth: u8,
    /// Templates entered so far, each once.
    pub visited_templates: Vec<String>,
    /// Manifests entered so far, each once.
    pub visited_manifests: Vec<String>,
    pub energy_remaining: u64,
}

/// Add `s` to `names` unless it is there.
fn insert_name(names: &mut Vec<String>, s: &str)
    ensures
        forall|x: Seq<char>| names_view(final(names)@).contains(x) <==> (names_view(old(names)@).contains(x) || x == s@),
{
    let mut i: usize = 0;
    while i < names.len()
        invariant
            i <= names@.len(),
            forall|j: int| 0 <= j < i ==> names@[j]@ != s@,
        decreases names@.len() - i,
    {
        if crate::text::str_eq(names[i].as_str(), s) {
            proof {
                assert(names_view(names@)[i as int] == s@);
            }
            return;
        }
        i = i + 1;
    }
    let ghost before = names_view(names@);
    names.push(String::from_str(s));
    proof {
        let after = names_view(names@);
        assert(after =~= before.push(s@));
        assert forall|x: Seq<char>| after.contains(x) <==> (before.contains(x) || x == s@) by {
            if after.contains(x) && x != s@ {
                let j = choose|j: int| 0 <= j < after.len() && after[j] == x;
                assert(before[j] == x);
            }
            if before.contains(x) {
                let j = choose|j: int| 0 <= j < before.len() && before[j] == x;
                assert(after[j] == x);
            }
            if x == s@ {
                assert(after[before.len() as int] == x);
            }
        }
    }
}

impl CascadeContext {
    /// A fresh context at depth zero with `initial_energy`; the depth limit
    /// is checked against the cascade limits, not stored here.
    pub fn new(_max_depth: u8, initial_energy: u64) -> (r: CascadeContext)
        ensures
            r.current_depth == 0,
            r.visited_templates@.len() == 0,
            r.visited_manifests@.len() == 0,
            r.energy_remaining == initial_energy,
    {
        CascadeContext {
            current_depth: 0,
            visited_templates: Vec::new(),
            visited_manifests: Vec::new(),
            energy_remaining: initial_energy,
        }
    }

    /// Whether one more stage may run: below the depth limit with energy left.
    pub fn can_recurse(&self, config: &CascadeLimits) -> (r: bool)
        ensures
            r == (self.current_depth < config.max_depth && self.energy_remaining > 0),
    {
        self.current_depth < config.max_depth && self.energy_remaining > 0
    }

    /// Enter `template` (and `manifest`, when given) one level deeper.
    pub fn descend(&mut self, template: &str, manifest: Option<&str>)
        requires
            old(self).current_depth < 255,
        ensures
            final(self).current_depth == old(self).current_depth + 1,
            final(self).energy_remaining == old(self).energy_remaining,
            manifest is None ==> final(self).visited_manifests == old(self).visited_manifests,
            forall|x: Seq<char>|
                names_view(final(self).visited_templates@).contains(x)
                    <==> (names_view(old(self).visited_templates@).contains(x) || x == template@),
            forall|x: Seq<char>|
                names_view(final(self).visited_manifests@).contains(x)
                    <==> (names_view(old(self).visited_manifests@).contains(x)
                        || (manifest matches Some(m) && x == m@)),
    {
        self.current_depth = self.current_depth + 1;
        insert_name(&mut self.visited_templates, template);
        match manifest {
            Some(m) => insert_name(&mut self.visited_manifests, m),
            None => {},
        }
    }
}

/// A copy of a list of names.
fn clone_names(v: &Vec<String>) -> (r: Vec<String>)
    ensures
        names_view(r@) == names_view(v@),
{
    let mut r: Vec<String> = Vec::new();
    let mut i: usize = 0;
    while i < v.len()
        invariant
            i <= v@.len(),
            names_view(r@) == names_view(v@).take(i as int),
        decreases v@.len() - i,
    {
        let ghost before = names_view(r@);
        r.push(v[i].clone());
        proof {
            assert(names_view(r@) =~= before.push(v@[i as int]@));
            assert(names_view(v@).take(i + 1) =~= names_view(v@).take(i as int).push(v@[i as int]@));
        }
        i = i + 1;
    }
    proof {
        assert(names_view(v@).take(v@.len() as int) =~= names_view(v@));
    }
    r
}

/// The character view of a stage: its name, templates and condition.
pub open spec fn stage_view(s: CascadeStage) -> (Seq<char>, Seq<Seq<char>>, Option<Seq<char>>) {
    (s.name@, names_view(s.templates@), match s.condition { Some(c) => Some(c@), None => None })
}

/// A copy of a stage.
fn clone_stage(s: &CascadeStage) -> (r: CascadeStage)
    ensures
        stage_view(r) == stage_view(*s),
{
    let condition = match &s.condition {
        Some(c) => Some(c.clone()),
        None => None,
    };
    CascadeStage { name: s.name.clone(), templates: clone_names(&s.templates), condition }
}

/// All stages of a cascade in running order: pre, then core, then post.
pub open spec fn all_stages(c: TemplateCascadeConfig) -> Seq<CascadeStage> {
    c.pre@ + c.core@ + c.post@
}

/// How many stages a cascade runs: as many as the depth limit allows, and
/// none without energy.
pub open spec fn stages_run(config: CascadeConfig) -> int {
    let n = all_stages(config.template_cascade).len();
    let m = config.cascade_limits.max_depth as int;
    if config.cascade_limits.energy_per_level == 0 {
        0
    } else if n <= m {
        n as int
    } else {
        m
    }
}

/// What a cascade did: its output, its final context and the stages it
/// ran, in order.
pub struct CascadeRun {
    pub output: Result<Value, TemplateError>,
    pub context: CascadeContext,
    pub stages: Vec<CascadeStage>,
}

/// The cascade engine.
pub struct CascadeEngine {
    config: CascadeConfig,
}

impl CascadeEngine {
    /// The settings the engine runs by.
    pub closed spec fn config(&self) -> CascadeConfig {
        self.config
    }

    /// An engine for `config`.
    pub fn new(config: CascadeConfig) -> (r: CascadeEngine)
        ensures
            r.config() == config,
    {
        CascadeEngine { config }
    }

    /// Refuses a context whose path of visited templates is longer than the
    /// configured limit.
    fn check_cycles(&self, context: &CascadeContext) -> (r: Result<(), TemplateError>)
        ensures
            r is Ok <==> context.visited_templates@.len() <= self.config.cycle_detection.max_path_length,
    {
        if context.visited_templates.len() > self.config.cycle_detection.max_path_length {
            return Err(TemplateError::Validation(String::from_str("Cascade path too long - possible cycle")));
        }
        Ok(())
    }

    /// Run the stages of one phase while the context may recurse.
    fn run_phase(
        &self,
        phase: &Vec<CascadeStage>,
        context: &mut CascadeContext,
        ran: &mut Vec<CascadeStage>,
    )
        requires
            old(context).current_depth as int == old(ran)@.len(),
            old(context).energy_remaining == self.config.cascade_limits.energy_per_level,
            old(ran)@.len() <= self.config.cascade_limits.max_depth,
        ensures
            final(context).energy_remaining == old(context).energy_remaining,
            final(context).visited_manifests == old(context).visited_manifests,
            final(context).current_depth as int == final(ran)@.len(),
            final(ran)@.len() == old(ran)@.len() + (if old(context).energy_remaining == 0 {
                0
            } else if old(ran)@.len() + phase@.len() <= self.config.cascade_limits.max_depth {
                phase@.len() as int
            } else {
                self.config.cascade_limits.max_depth - old(ran)@.len()
            }),
            forall|i: int| 0 <= i < old(ran)@.len() ==> stage_view(#[trigger] final(ran)@[i]) == stage_view(old(ran)@[i]),
            forall|i: int| old(ran)@.len() <= i < final(ran)@.len()
                ==> stage_view(#[trigger] final(ran)@[i]) == stage_view(phase@[i - old(ran)@.len()]),
            forall|x: Seq<char>|
                names_view(final(context).visited_templates@).contains(x)
                    <==> (names_view(old(context).visited_templates@).contains(x)
                        || exists|i: int| old(ran)@.len() <= i < final(ran)@.len() && #[trigger] final(ran)@[i].name@ == x),
    {
        let ghost ran0 = ran@;
        let ghost vis0 = names_view(context.visited_templates@);
        let ghost man0 = context.visited_manifests;
        let mut i: usize = 0;
        while i < phase.len()
            invariant
                i <= phase@.len(),
                context.visited_manifests == man0,
                context.energy_remaining == self.config.cascade_limits.energy_per_level,
                context.current_depth as int == ran@.len(),
                ran@.len() == ran0.len() + i,
                self.config.cascade_limits.energy_per_level == 0 ==> i == 0,
                ran@.len() <= self.config.cascade_limits.max_depth,
                forall|j: int| 0 <= j < ran0.len() ==> stage_view(#[trigger] ran@[j]) == stage_view(ran0[j]),
                forall|j: int| ran0.len() <= j < ran@.len() ==> stage_view(#[trigger] ran@[j]) == stage_view(phase@[j - ran0.len()]),
                forall|x: Seq<char>|
                    names_view(context.visited_templates@).contains(x)
                        <==> (vis0.contains(x) || exists|j: int| ran0.len() <= j < ran@.len() && #[trigger] ran@[j].name@ == x),
            ensures
                ran@.len() == ran0.len() + (if self.config.cascade_limits.energy_per_level == 0 {
                    0
                } else if ran0.len() + phase@.len() <= self.config.cascade_limits.max_depth {
                    phase@.len() as int
                } else {
                    self.config.cascade_limits.max_depth - ran0.len()
                }),
            decreases phase@.len() - i,
        {
            if !context.can_recurse(&self.config.cascade_limits) {
                break;
            }
            let stage = &phase[i];
            let ghost vis1 = names_view(context.visited_templates@);
            let ghost ran1 = ran@;
            context.descend(stage.name.as_str(), None);
            ran.push(clone_stage(stage));
            proof {
                assert(ran@[ran1.len() as int] == ran@.last());
                assert forall|x: Seq<char>|
                    names_view(context.visited_templates@).contains(x)
                        <==> (vis0.contains(x) || exists|j: int| ran0.len() <= j < ran@.len() && #[trigger] ran@[j].name@ == x) by {
                    if names_view(context.visited_templates@).contains(x) {
                        if x == stage.name@ {
                            assert(ran@[ran1.len() as int].name@ == x);
                        } else {
                            assert(vis1.contains(x));
                            if !vis0.contains(x) {
                                let j = choose|j: int| ran0.len() <= j < ran1.len() && #[trigger] ran1[j].name@ == x;
                                assert(ran@[j] == ran1[j]);
                            }
                        }
                    }
                    if exists|j: int| ran0.len() <= j < ran@.len() && #[trigger] ran@[j].name@ == x {
                        let j = choose|j: int| ran0.len() <= j < ran@.len() && #[trigger] ran@[j].name@ == x;
                        if j < ran1.len() {
                            assert(ran1[j] == ran@[j]);
                        } else {
                            assert(stage_view(ran@[j]) == stage_view(phase@[i as int]));
                        }
                    }
                }
            }
            i = i + 1;
        }
    }

    /// Run the cascade on `input`: every stage passes its input through, so
    /// the output is the input; the context records how deep the cascade went.
    pub fn execute(&self, input: Value) -> (r: CascadeRun)
        ensures
            r.output == Ok::<Value, TemplateError>(input),
            r.context.current_depth == stages_run(self.config()),
            r.context.energy_remaining == self.config().cascade_limits.energy_per_level,
            r.stages@.len() == stages_run(self.config()),
            forall|i: int| 0 <= i < r.stages@.len()
                ==> stage_view(#[trigger] r.stages@[i]) == stage_view(all_stages(self.config().template_cascade)[i]),
            forall|x: Seq<char>|
                names_view(r.context.visited_templates@).contains(x)
                    <==> exists|i: int| 0 <= i < r.stages@.len() && #[trigger] r.stages@[i].name@ == x,
            r.context.visited_manifests@.len() == 0,
    {
        let limits = &self.config.cascade_limits;
        let mut context = CascadeContext::new(limits.max_depth, limits.energy_per_level);
        if self.config.cycle_detection.enabled {
            match self.check_cycles(&context) {
                Ok(()) => {},
                Err(e) => {
                    proof {
                        assert(false);
                    }
                    return CascadeRun { output: Err(e), context, stages: Vec::new() };
                },
            }
        }
        let mut ran: Vec<CascadeStage> = Vec::new();
        let ghost pre = self.config.template_cascade.pre@;
        let ghost core = self.config.template_cascade.core@;
        let ghost post = self.config.template_cascade.post@;
        proof {
            assert(names_view(context.visited_templates@) =~= Seq::<Seq<char>>::empty());
        }
        self.run_phase(&self.config.template_cascade.pre, &mut context, &mut ran);
        let ghost ran1 = ran@;
        let ghost vis1 = names_view(context.visited_templates@);
        self.run_phase(&self.config.template_cascade.core, &mut context, &mut ran);
        let ghost ran2 = ran@;
        let ghost vis2 = names_view(context.visited_templates@);
        self.run_phase(&self.config.template_cascade.post, &mut context, &mut ran);
        proof {
            assert forall|x: Seq<char>|
                names_view(context.visited_templates@).contains(x)
                    <==> exists|i: int| 0 <= i < ran@.len() && #[trigger] ran@[i].name@ == x by {
                if names_view(context.visited_templates@).contains(x) {
                    if vis2.contains(x) {
                        if vis1.contains(x) {
                            let j = choose|j: int| 0 <= j < ran1.len() && #[trigger] ran1[j].name@ == x;
                            assert(stage_view(ran2[j]) == stage_view(ran1[j]));
                            assert(stage_view(ran@[j]) == stage_view(ran2[j]));
                            assert(ran@[j].name@ == x);
                        } else {
                            let j = choose|j: int| ran1.len() <= j < ran2.len() && #[trigger] ran2[j].name@ == x;
                            assert(stage_view(ran@[j]) == stage_view(ran2[j]));
                            assert(ran@[j].name@ == x);
                        }
                    }
                }
                if exists|i: int| 0 <= i < ran@.len() && #[trigger] ran@[i].name@ == x {
                    let j = choose|j: int| 0 <= j < ran@.len() && #[trigger] ran@[j].name@ == x;
                    if j < ran1.len() {
                        assert(stage_view(ran2[j]) == stage_view(ran1[j]));
                        assert(stage_view(ran@[j]) == stage_view(ran2[j]));
                        assert(ran1[j].name@ == x);
                        assert(vis1.contains(x));
                    } else if j < ran2.len() {
                        assert(stage_view(ran@[j]) == stage_view(ran2[j]));
                        assert(ran2[j].name@ == x);
                        assert(vis2.contains(x));
                    }
                }
            }
            let all = all_stages(self.config.template_cascade);
            assert(all =~= pre + core + post);
            assert forall|i: int| 0 <= i < ran@.len() implies stage_view(#[trigger] ran@[i]) == stage_view(all[i]) by {
                if i < ran1.len() {
                    assert(stage_view(ran2[i]) == stage_view(ran1[i]));
                    assert(all[i] == pre[i]);
                } else if i < ran2.len() {
                    assert(stage_view(ran2[i]) == stage_view(core[i - ran1.len()]));
                    assert(all[i] == core[i - pre.len()]);
                } else {
                    assert(all[i] == post[i - pre.len() - core.len()]);
                }
            }
        }
        CascadeRun { output: Ok(input), context, stages: ran }
    }
}

} // verus!
