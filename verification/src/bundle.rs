//! Skill bundles: several skills composed into one agent capability, with
//! declared conflicts, complementarities and cascade steps, and the rules a
//! bundle must keep.
use vstd::prelude::*;
use vstd::string::*;
use serde_json::Value;
use vstd::relations::{sorted_by, total_ordering};
use vstd::seq_lib::{lemma_multiset_commutative, lemma_sorted_unique};
use crate::decimal::{decimal, push_decimal};
use crate::graph::{add_name, names_view};

verus! {

/// Cybernetic role of a skill in a bundle.
#[derive(Debug, Clone, Copy, PartialEq, Eq, Hash, Structural)]
pub enum SkillPolarity {
    Generative,
    Evaluative,
    Regulative,
    Procedural,
}

/// The name of a polarity.
pub open spec fn polarity_name(p: SkillPolarity) -> Seq<char> {
    match p {
        SkillPolarity::Generative => "Generative"@,
        SkillPolarity::Evaluative => "Evaluative"@,
        SkillPolarity::Regulative => "Regulative"@,
        SkillPolarity::Procedural => "Procedural"@,
    }
}

/// The polarity a name denotes: its own name, or the same in lower case.
pub open spec fn polarity_named(s: Seq<char>) -> Option<SkillPolarity> {
    if s == "Generative"@ || s == "generative"@ {
        Some(SkillPolarity::Generative)
    } else if s == "Evaluative"@ || s == "evaluative"@ {
        Some(SkillPolarity::Evaluative)
    } else if s == "Regulative"@ || s == "regulative"@ {
        Some(SkillPolarity::Regulative)
    } else if s == "Procedural"@ || s == "procedural"@ {
        Some(SkillPolarity::Procedural)
    } else {
        None
    }
}

impl SkillPolarity {
    /// The name of the polarity.
    pub fn as_str(&self) -> (r: &'static str)
        ensures
            r@ == polarity_name(*self),
    {
        match self {
            SkillPolarity::Generative => "Generative",
            SkillPolarity::Evaluative => "Evaluative",
            SkillPolarity::Regulative => "Regulative",
            SkillPolarity::Procedural => "Procedural",
        }
    }

    /// The polarity named by `s`, in its own spelling or in lower case.
    pub fn parse_str(s: &str) -> (r: Option<SkillPolarity>)
        ensures
            r == polarity_named(s@),
    {
        if crate::text::str_eq(s, "Generative") || crate::text::str_eq(s, "generative") {
            Some(SkillPolarity::Generative)
        } else if crate::text::str_eq(s, "Evaluative") || crate::text::str_eq(s, "evaluative") {
            Some(SkillPolarity::Evaluative)
        } else if crate::text::str_eq(s, "Regulative") || crate::text::str_eq(s, "regulative") {
            Some(SkillPolarity::Regulative)
        } else if crate::text::str_eq(s, "Procedural") || crate::text::str_eq(s, "procedural") {
            Some(SkillPolarity::Procedural)
        } else {
            None
        }
    }

    /// Whether the skill plays a divergent, creative role.
    pub fn is_divergent(&self) -> (r: bool)
        ensures
            r == (*self == SkillPolarity::Generative),
    {
        match self {
            SkillPolarity::Generative => true,
            _ => false,
        }
    }

    /// Whether the skill plays a convergent, critical role.
    pub fn is_convergent(&self) -> (r: bool)
        ensures
            r == (*self == SkillPolarity::Evaluative),
    {
        match self {
            SkillPolarity::Evaluative => true,
            _ => false,
        }
    }
}

/// The phase of a cascade that a bundle step belongs to.
#[derive(Debug, Clone, Copy, PartialEq, Eq, Hash, Structural)]
pub enum CascadePhase {
    Pre,
    Core,
    Post,
}

/// The name of a phase.
pub open spec fn phase_name(p: CascadePhase) -> Seq<char> {
    match p {
        CascadePhase::Pre => "Pre"@,
        CascadePhase::Core => "Core"@,
        CascadePhase::Post => "Post"@,
    }
}

impl CascadePhase {
    /// The name of the phase.
    pub fn as_str(&self) -> (r: &'static str)
        ensures
            r@ == phase_name(*self),
    {
        match self {
            CascadePhase::Pre => "Pre",
            CascadePhase::Core => "Core",
            CascadePhase::Post => "Post",
        }
    }
}

/// A skill within a bundle.
#[derive(Debug, Clone)]
pub struct BundleSkill {
    pub id: String,
    pub polarity: SkillPolarity,
    pub lexicon_terms: Vec<String>,
    pub manifest_ref: String,
    pub content_hash: String,
}

/// Skills of a bundle that must not be combined freely.
#[derive(Debug, Clone)]
pub struct BundleConflict {
    pub skills: Vec<String>,
    pub description: String,
}

/// Skills of a bundle that strengthen each other.
#[derive(Debug, Clone)]
pub struct BundleComplementarity {
    pub skills: Vec<String>,
    pub description: String,
}

/// One step of a bundle's cascade.
#[derive(Debug, Clone)]
pub struct BundleManifestStep {
    pub ordinal: u32,
    pub action: String,
    pub description: String,
    pub renderer: Option<String>,
    pub template_ref: Option<String>,
    pub mcp: Option<String>,
    pub gas_cap: u32,
    pub timeout_seconds: u32,
    pub input_mapping: Option<Value>,
    pub output_schema: Option<Value>,
    pub phase: CascadePhase,
    /// A step condition, such as `ready AND NOT blocked`; the step is
    /// skipped when it does not hold.
    pub condition: Option<String>,
}

impl BundleManifestStep {
    /// The name of the step's phase.
    pub fn phase_str(&self) -> (r: &'static str)
        ensures
            r@ == phase_name(self.phase),
    {
        self.phase.as_str()
    }
}

/// A composed bundle of skills.
#[derive(Debug, Clone)]
pub struct BundleManifest {
    pub id: String,
    pub name: String,
    pub description: String,
    pub version: String,
    pub editor: String,
    pub skills: Vec<BundleSkill>,
    pub conflicts: Vec<BundleConflict>,
    pub complementarities: Vec<BundleComplementarity>,
    pub steps: Vec<BundleManifestStep>,
    pub functional_role: Option<String>,
    pub inputs: Option<Value>,
    pub principles: Option<Value>,
}

/// The outcome of validating a bundle: hard errors and soft warnings.
#[derive(Debug, Clone, Default)]
pub struct ValidationResult {
    pub errors: Vec<String>,
    pub warnings: Vec<String>,
}

impl ValidationResult {
    /// Whether there is no error.
    pub fn is_valid(&self) -> (r: bool)
        ensures
            r == (self.errors@.len() == 0),
    {
        self.errors.len() == 0
    }

    /// Whether there is a warning.
    pub fn has_warnings(&self) -> (r: bool)
        ensures
            r == (self.warnings@.len() > 0),
    {
        self.warnings.len() > 0
    }
}

/// The sum of the gas caps of `steps`.
pub open spec fn gas_sum(steps: Seq<BundleManifestStep>) -> int
    decreases steps.len(),
{
    if steps.len() == 0 {
        0
    } else {
        gas_sum(steps.drop_last()) + steps.last().gas_cap
    }
}

/// The first skill whose id occurs in `text`.
pub open spec fn first_skill_within(skills: Seq<BundleSkill>, text: Seq<char>) -> Option<int>
    decreases skills.len(),
{
    if skills.len() == 0 {
        None
    } else if crate::text::has_sub(text, skills[0].id@) {
        Some(0)
    } else {
        match first_skill_within(skills.drop_first(), text) {
            Some(i) => Some(i + 1),
            None => None,
        }
    }
}

impl BundleManifest {
    /// The sum of the gas caps of all steps.
    pub fn total_step_gas(&self) -> (r: u32)
        requires
            gas_sum(self.steps@) <= u32::MAX,
        ensures
            r == gas_sum(self.steps@),
    {
        let mut total: u32 = 0;
        let mut i: usize = 0;
        while i < self.steps.len()
            invariant
                i <= self.steps@.len(),
                total == gas_sum(self.steps@.take(i as int)),
                gas_sum(self.steps@) <= u32::MAX,
            decreases self.steps@.len() - i,
        {
            proof {
                assert(self.steps@.take(i + 1).drop_last() =~= self.steps@.take(i as int));
                lemma_gas_sum_prefix(self.steps@, i + 1);
            }
            total = total + self.steps[i].gas_cap;
            i = i + 1;
        }
        proof {
            assert(self.steps@.take(self.steps@.len() as int) =~= self.steps@);
        }
        total
    }

    /// The ids of all skills, in order.
    pub fn skill_ids(&self) -> (r: Vec<String>)
        ensures
            names_view(r@) == self.skills@.map_values(|s: BundleSkill| s.id@),
    {
        let mut r: Vec<String> = Vec::new();
        let mut i: usize = 0;
        while i < self.skills.len()
            invariant
                i <= self.skills@.len(),
                names_view(r@) == self.skills@.take(i as int).map_values(|s: BundleSkill| s.id@),
            decreases self.skills@.len() - i,
        {
            let ghost before = names_view(r@);
            r.push(self.skills[i].id.clone());
            proof {
                assert(names_view(r@) =~= before.push(self.skills@[i as int].id@));
                assert(self.skills@.take(i + 1).map_values(|s: BundleSkill| s.id@)
                    =~= self.skills@.take(i as int).map_values(|s: BundleSkill| s.id@).push(self.skills@[i as int].id@));
            }
            i = i + 1;
        }
        proof {
            assert(self.skills@.take(self.skills@.len() as int) =~= self.skills@);
        }
        r
    }

    /// The position of the first skill whose id occurs in `text`.
    fn find_skill_within(&self, text: &String) -> (r: Option<usize>)
        ensures
            r matches Some(i) ==> i < self.skills@.len() && first_skill_within(self.skills@, text@) == Some(i as int),
            r is None ==> first_skill_within(self.skills@, text@) is None,
    {
        let tv = crate::text::str_chars(text.as_str());
        let mut i: usize = 0;
        proof {
            assert(self.skills@.skip(0) =~= self.skills@);
        }
        while i < self.skills.len()
            invariant
                i <= self.skills@.len(),
                tv@ == text@,
                first_skill_within(self.skills@, text@) == match first_skill_within(self.skills@.skip(i as int), text@) {
                    Some(k) => Some(k + i),
                    None => None,
                },
            decreases self.skills@.len() - i,
        {
            proof {
                assert(self.skills@.skip(i as int).drop_first() =~= self.skills@.skip(i + 1));
                assert(self.skills@.skip(i as int)[0] == self.skills@[i as int]);
            }
            if crate::text::contains_str(&tv, self.skills[i].id.as_str()) {
                return Some(i);
            }
            i = i + 1;
        }
        None
    }

    /// For each step in `phase`, in order, the first skill whose id occurs
    /// in the step's description; steps that name no skill are left out.
    pub fn skills_in_phase(&self, phase: CascadePhase) -> (r: Vec<&BundleSkill>)
        ensures
            r@.map_values(|s: &BundleSkill| *s) == skills_named_in(self.skills@, self.steps@, phase),
    {
        let mut r: Vec<&BundleSkill> = Vec::new();
        let mut i: usize = 0;
        while i < self.steps.len()
            invariant
                i <= self.steps@.len(),
                r@.map_values(|s: &BundleSkill| *s) == skills_named_in(self.skills@, self.steps@.take(i as int), phase),
            decreases self.steps@.len() - i,
        {
            proof {
                assert(self.steps@.take(i + 1).drop_last() =~= self.steps@.take(i as int));
            }
            let step = &self.steps[i];
            if step.phase == phase {
                match self.find_skill_within(&step.description) {
                    Some(k) => {
                        let ghost before = r@.map_values(|s: &BundleSkill| *s);
                        r.push(&self.skills[k]);
                        proof {
                            assert(r@.map_values(|s: &BundleSkill| *s) =~= before.push(self.skills@[k as int]));
                        }
                    },
                    None => {},
                }
            }
            i = i + 1;
        }
        proof {
            assert(self.steps@.take(self.steps@.len() as int) =~= self.steps@);
        }
        r
    }
}

/// The gas sum of a prefix is at most that of the whole.
proof fn lemma_gas_sum_prefix(steps: Seq<BundleManifestStep>, k: int)
    requires
        0 <= k <= steps.len(),
    ensures
        gas_sum(steps.take(k)) <= gas_sum(steps),
    decreases steps.len(),
{
    if k < steps.len() {
        assert(steps.drop_last().take(k) =~= steps.take(k));
        lemma_gas_sum_prefix(steps.drop_last(), k);
    } else {
        assert(steps.take(k) =~= steps);
    }
}

/// For each step of `steps` in `phase`, the first skill whose id occurs in
/// its description.
pub open spec fn skills_named_in(
    skills: Seq<BundleSkill>,
    steps: Seq<BundleManifestStep>,
    phase: CascadePhase,
) -> Seq<BundleSkill>
    decreases steps.len(),
{
    if steps.len() == 0 {
        Seq::empty()
    } else {
        let prev = skills_named_in(skills, steps.drop_last(), phase);
        if steps.last().phase == phase {
            match first_skill_within(skills, steps.last().description@) {
                Some(k) => prev.push(skills[k]),
                None => prev,
            }
        } else {
            prev
        }
    }
}

/// Whether some skill has id `id`.
pub open spec fn has_skill(skills: Seq<BundleSkill>, id: Seq<char>) -> bool {
    exists|k: int| 0 <= k < skills.len() && skills[k].id@ == id
}

/// The polarity of the first skill with id `id`.
pub open spec fn polarity_of(skills: Seq<BundleSkill>, id: Seq<char>) -> Option<SkillPolarity>
    decreases skills.len(),
{
    if skills.len() == 0 {
        None
    } else if skills[0].id@ == id {
        Some(skills[0].polarity)
    } else {
        polarity_of(skills.drop_first(), id)
    }
}

/// Some step in `phase` is described by the id of a skill of polarity `p`.
pub open spec fn phase_has(
    skills: Seq<BundleSkill>,
    steps: Seq<BundleManifestStep>,
    phase: CascadePhase,
    p: SkillPolarity,
) -> bool {
    exists|i: int| 0 <= i < steps.len() && steps[i].phase == phase && polarity_of(skills, (#[trigger] steps[i]).description@) == Some(p)
}

/// The distinct lexicon terms of the first `n` skills.
pub open spec fn terms_upto(skills: Seq<BundleSkill>, n: int) -> Set<Seq<char>> {
    Set::new(|t: Seq<char>| exists|a: int, b: int|
        0 <= a < n && 0 <= b < skills[a].lexicon_terms@.len() && (#[trigger] skills[a].lexicon_terms@[b])@ == t)
}

/// The distinct lexicon terms of all skills.
pub open spec fn lexicon_terms_of(skills: Seq<BundleSkill>) -> Set<Seq<char>> {
    terms_upto(skills, skills.len() as int)
}

/// The error for too few skills.
pub open spec fn skill_count_errors(n: nat) -> Seq<Seq<char>> {
    if n < 2 {
        seq!["Bundle must have at least 2 skills, found "@ + decimal(n)]
    } else {
        Seq::empty()
    }
}

/// The error for too many steps.
pub open spec fn step_count_errors(n: nat) -> Seq<Seq<char>> {
    if n > 7 {
        seq!["Cascade depth exceeds matroshka limit ("@ + decimal(n) + " steps, max 7)"@]
    } else {
        Seq::empty()
    }
}

/// The errors for skills with too many lexicon terms, in skill order.
pub open spec fn term_errors(skills: Seq<BundleSkill>) -> Seq<Seq<char>>
    decreases skills.len(),
{
    if skills.len() == 0 {
        Seq::empty()
    } else {
        let s = skills.last();
        term_errors(skills.drop_last()) + if s.lexicon_terms@.len() > 10 {
            seq!["Skill '"@ + s.id@ + "' has "@ + decimal(s.lexicon_terms@.len()) + " lexicon terms (max 10)"@]
        } else {
            Seq::empty()
        }
    }
}

/// The error for divergent and convergent skills in one phase.
pub open spec fn polarity_errors_in(skills: Seq<BundleSkill>, steps: Seq<BundleManifestStep>, phase: CascadePhase) -> Seq<Seq<char>> {
    if phase_has(skills, steps, phase, SkillPolarity::Generative) && phase_has(skills, steps, phase, SkillPolarity::Evaluative) {
        seq!["P1 violation: divergent and convergent skills in same "@ + phase_name(phase) + " phase"@]
    } else {
        Seq::empty()
    }
}

/// One error for each id of `ids` that is no skill's, in order.
pub open spec fn missing_refs(ids: Seq<String>, skills: Seq<BundleSkill>, what: Seq<char>) -> Seq<Seq<char>>
    decreases ids.len(),
{
    if ids.len() == 0 {
        Seq::empty()
    } else {
        missing_refs(ids.drop_last(), skills, what) + if !has_skill(skills, ids.last()@) {
            seq![what + " references skill '"@ + ids.last()@ + "' not found in bundle"@]
        } else {
            Seq::empty()
        }
    }
}

/// The errors of the declared conflicts, conflict by conflict.
pub open spec fn conflict_errors(cs: Seq<BundleConflict>, skills: Seq<BundleSkill>) -> Seq<Seq<char>>
    decreases cs.len(),
{
    if cs.len() == 0 {
        Seq::empty()
    } else {
        let c = cs.last();
        conflict_errors(cs.drop_last(), skills) + missing_refs(c.skills@, skills, "Conflict"@) + if c.skills@.len() != 2 {
            seq!["Conflict must reference exactly 2 skills, found "@ + decimal(c.skills@.len())]
        } else {
            Seq::empty()
        }
    }
}

/// The errors of the declared complementarities.
pub open spec fn complementarity_errors(cs: Seq<BundleComplementarity>, skills: Seq<BundleSkill>) -> Seq<Seq<char>>
    decreases cs.len(),
{
    if cs.len() == 0 {
        Seq::empty()
    } else {
        complementarity_errors(cs.drop_last(), skills) + missing_refs(cs.last().skills@, skills, "Complementarity"@)
    }
}

/// The warnings of the declared complementarities.
pub open spec fn complementarity_warnings(cs: Seq<BundleComplementarity>) -> Seq<Seq<char>>
    decreases cs.len(),
{
    if cs.len() == 0 {
        Seq::empty()
    } else {
        let n = cs.last().skills@.len();
        complementarity_warnings(cs.drop_last()) + if n != 2 {
            seq!["Complementarity typically references 2 skills, found "@ + decimal(n)]
        } else {
            Seq::empty()
        }
    }
}

/// The order of step ordinals.
pub open spec fn ordinal_leq() -> spec_fn(u32, u32) -> bool {
    |a: u32, b: u32| a <= b
}

/// The step ordinals in ascending order.
pub open spec fn sorted_ordinals(steps: Seq<BundleManifestStep>) -> Seq<u32> {
    steps.map_values(|s: BundleManifestStep| s.ordinal).sort_by(ordinal_leq())
}

/// The error for the first position from `i` on where the sorted ordinals
/// are not `1, 2, 3, ...`.
pub open spec fn ordinal_errors(srt: Seq<u32>, i: int) -> Seq<Seq<char>>
    decreases srt.len() - i,
{
    if i < 0 || i >= srt.len() {
        Seq::empty()
    } else if srt[i] != i + 1 {
        seq!["Step ordinals not sequential: expected "@ + decimal((i + 1) as nat) + ", found "@ + decimal(srt[i] as nat)]
    } else {
        ordinal_errors(srt, i + 1)
    }
}

/// The warning for many distinct lexicon terms.
pub open spec fn unique_term_warnings(n: nat) -> Seq<Seq<char>> {
    if n > 30 {
        seq!["Bundle has "@ + decimal(n) + " unique lexicon terms (recommended max 30)"@]
    } else {
        Seq::empty()
    }
}

/// The warning for a version without a dot.
pub open spec fn version_warnings(v: Seq<char>) -> Seq<Seq<char>> {
    if !v.contains('.') {
        seq!["Version '"@ + v + "' does not follow semantic versioning"@]
    } else {
        Seq::empty()
    }
}

/// The warnings for skills without a content hash, in skill order.
pub open spec fn hash_warnings(skills: Seq<BundleSkill>) -> Seq<Seq<char>>
    decreases skills.len(),
{
    if skills.len() == 0 {
        Seq::empty()
    } else {
        hash_warnings(skills.drop_last()) + if skills.last().content_hash@.len() == 0 {
            seq!["Skill '"@ + skills.last().id@ + "' has empty content_hash"@]
        } else {
            Seq::empty()
        }
    }
}

/// The errors of a bundle, in the order the rules are checked.
pub open spec fn bundle_errors(m: BundleManifest) -> Seq<Seq<char>> {
    skill_count_errors(m.skills@.len()) + step_count_errors(m.steps@.len()) + term_errors(m.skills@)
        + polarity_errors_in(m.skills@, m.steps@, CascadePhase::Pre) + polarity_errors_in(m.skills@, m.steps@, CascadePhase::Core)
        + conflict_errors(m.conflicts@, m.skills@) + complementarity_errors(m.complementarities@, m.skills@)
        + ordinal_errors(sorted_ordinals(m.steps@), 0)
}

/// The warnings of a bundle, in the order the rules are checked.
pub open spec fn bundle_warnings(m: BundleManifest) -> Seq<Seq<char>> {
    unique_term_warnings(lexicon_terms_of(m.skills@).len()) + complementarity_warnings(m.complementarities@)
        + version_warnings(m.version@) + hash_warnings(m.skills@)
}

/// Checking the sorted ordinals would count past `u32::MAX`: there are more
/// steps than that and the first `u32::MAX` ordinals run `1, 2, 3, ...`.
pub open spec fn ordinal_count_overflows(steps: Seq<BundleManifestStep>) -> bool {
    steps.len() > u32::MAX && forall|i: int| 0 <= i < u32::MAX ==> #[trigger] sorted_ordinals(steps)[i] == i + 1
}

/// Every skill has at most 10 lexicon terms.
pub open spec fn terms_within_limit(skills: Seq<BundleSkill>) -> bool {
    forall|k: int| 0 <= k < skills.len() ==> (#[trigger] skills[k]).lexicon_terms@.len() <= 10
}

/// Every id of `ids` is the id of a skill.
pub open spec fn all_known(ids: Seq<String>, skills: Seq<BundleSkill>) -> bool {
    forall|j: int| 0 <= j < ids.len() ==> has_skill(skills, (#[trigger] ids[j])@)
}

/// Every conflict names exactly two skills, both of the bundle.
pub open spec fn conflicts_ok(cs: Seq<BundleConflict>, skills: Seq<BundleSkill>) -> bool {
    forall|j: int| 0 <= j < cs.len() ==> (#[trigger] cs[j]).skills@.len() == 2 && all_known(cs[j].skills@, skills)
}

/// Every complementarity names only skills of the bundle.
pub open spec fn complementarities_known(cs: Seq<BundleComplementarity>, skills: Seq<BundleSkill>) -> bool {
    forall|j: int| 0 <= j < cs.len() ==> all_known((#[trigger] cs[j]).skills@, skills)
}

/// The sorted ordinals are `1, 2, 3, ...`.
pub open spec fn sequential(srt: Seq<u32>) -> bool {
    forall|i: int| 0 <= i < srt.len() ==> #[trigger] srt[i] == i + 1
}

/// No skill before position `k` has id `id`.
pub open spec fn none_before(skills: Seq<BundleSkill>, id: Seq<char>, k: int) -> bool {
    forall|j: int| 0 <= j < k ==> (#[trigger] skills[j]).id@ != id
}

/// The first skill whose id is `id` has polarity `p`.
pub open spec fn first_skill_is(skills: Seq<BundleSkill>, id: Seq<char>, p: SkillPolarity) -> bool {
    exists|k: int| 0 <= k < skills.len() && (#[trigger] skills[k]).id@ == id && skills[k].polarity == p
        && none_before(skills, id, k)
}

/// Some step of `phase`, any of them, is described by the id of a skill of
/// polarity `p`.
pub open spec fn phase_names(skills: Seq<BundleSkill>, steps: Seq<BundleManifestStep>, phase: CascadePhase, p: SkillPolarity) -> bool {
    exists|i: int| 0 <= i < steps.len() && (#[trigger] steps[i]).phase == phase && first_skill_is(skills, steps[i].description@, p)
}

/// `phase` holds steps of a generative and of an evaluative skill.
pub open spec fn phase_mixed(skills: Seq<BundleSkill>, steps: Seq<BundleManifestStep>, phase: CascadePhase) -> bool {
    phase_names(skills, steps, phase, SkillPolarity::Generative) && phase_names(skills, steps, phase, SkillPolarity::Evaluative)
}

/// A polarity found for `id` is that of a skill with it, the first one.
proof fn lemma_polarity_found(skills: Seq<BundleSkill>, id: Seq<char>) -> (k: int)
    requires
        polarity_of(skills, id) is Some,
    ensures
        0 <= k < skills.len(),
        skills[k].id@ == id,
        polarity_of(skills, id) == Some(skills[k].polarity),
        none_before(skills, id, k),
    decreases skills.len(),
{
    if skills[0].id@ == id {
        0
    } else {
        let rest = skills.drop_first();
        let k = lemma_polarity_found(rest, id);
        assert(skills[k + 1] == rest[k]);
        assert forall|j: int| 0 <= j < k + 1 implies (#[trigger] skills[j]).id@ != id by {
            if j > 0 {
                assert(skills[j] == rest[j - 1]);
            }
        }
        k + 1
    }
}

/// The first skill with id `id` gives the polarity found for it.
proof fn lemma_polarity_first(skills: Seq<BundleSkill>, id: Seq<char>, k: int)
    requires
        0 <= k < skills.len(),
        skills[k].id@ == id,
        none_before(skills, id, k),
    ensures
        polarity_of(skills, id) == Some(skills[k].polarity),
    decreases k,
{
    if k > 0 {
        let rest = skills.drop_first();
        assert(skills[0].id@ != id);
        assert forall|j: int| 0 <= j < k - 1 implies (#[trigger] rest[j]).id@ != id by {
            assert(rest[j] == skills[j + 1]);
        }
        assert(rest[k - 1] == skills[k]);
        lemma_polarity_first(rest, id, k - 1);
    }
}

/// The polarity found for an id is that of the first skill with it.
proof fn lemma_polarity_of(skills: Seq<BundleSkill>, id: Seq<char>, p: SkillPolarity)
    ensures
        polarity_of(skills, id) == Some(p) <==> first_skill_is(skills, id, p),
{
    if polarity_of(skills, id) == Some(p) {
        let k = lemma_polarity_found(skills, id);
        assert(skills[k].id@ == id);
    }
    if first_skill_is(skills, id, p) {
        let k = choose|k: int| 0 <= k < skills.len() && (#[trigger] skills[k]).id@ == id && skills[k].polarity == p
            && none_before(skills, id, k);
        lemma_polarity_first(skills, id, k);
    }
}

/// The phase check looks at every step of the phase.
proof fn lemma_phase_names(skills: Seq<BundleSkill>, steps: Seq<BundleManifestStep>, phase: CascadePhase, p: SkillPolarity)
    ensures
        phase_has(skills, steps, phase, p) <==> phase_names(skills, steps, phase, p),
{
    if phase_has(skills, steps, phase, p) {
        let i = choose|i: int| 0 <= i < steps.len() && steps[i].phase == phase && polarity_of(skills, (#[trigger] steps[i]).description@) == Some(p);
        lemma_polarity_of(skills, steps[i].description@, p);
    }
    if phase_names(skills, steps, phase, p) {
        let i = choose|i: int| 0 <= i < steps.len() && (#[trigger] steps[i]).phase == phase && first_skill_is(skills, steps[i].description@, p);
        lemma_polarity_of(skills, steps[i].description@, p);
    }
}

/// The text of the mixed-phase error for `phase`.
pub open spec fn p1_message(phase: CascadePhase) -> Seq<char> {
    "P1 violation: divergent and convergent skills in same "@ + (if phase == CascadePhase::Pre { "Pre"@ } else { "Core"@ })
        + " phase"@
}

/// When one step of the pre or core phase, wherever it stands, names a
/// generative skill and another names an evaluative one, validation
/// reports the mixed phase.
pub proof fn lemma_mixed_phase_reported(m: BundleManifest, phase: CascadePhase, i: int, j: int)
    requires
        phase == CascadePhase::Pre || phase == CascadePhase::Core,
        0 <= i < m.steps@.len(),
        0 <= j < m.steps@.len(),
        m.steps@[i].phase == phase,
        m.steps@[j].phase == phase,
        first_skill_is(m.skills@, m.steps@[i].description@, SkillPolarity::Generative),
        first_skill_is(m.skills@, m.steps@[j].description@, SkillPolarity::Evaluative),
    ensures
        bundle_errors(m).contains(p1_message(phase)),
{
    let sk = m.skills@;
    let st = m.steps@;
    lemma_phase_names(sk, st, phase, SkillPolarity::Generative);
    lemma_phase_names(sk, st, phase, SkillPolarity::Evaluative);
    assert(phase_names(sk, st, phase, SkillPolarity::Generative)) by {
        assert(st[i].phase == phase);
    }
    assert(phase_names(sk, st, phase, SkillPolarity::Evaluative)) by {
        assert(st[j].phase == phase);
    }
    let pe = polarity_errors_in(sk, st, phase);
    assert(pe[0] == p1_message(phase)) by {
        reveal_strlit("Pre");
        reveal_strlit("Core");
    }
    let a = skill_count_errors(sk.len()) + step_count_errors(st.len()) + term_errors(sk);
    let pre = polarity_errors_in(sk, st, CascadePhase::Pre);
    let core = polarity_errors_in(sk, st, CascadePhase::Core);
    let rest = conflict_errors(m.conflicts@, sk) + complementarity_errors(m.complementarities@, sk)
        + ordinal_errors(sorted_ordinals(st), 0);
    assert(bundle_errors(m) =~= a + pre + core + rest);
    if phase == CascadePhase::Pre {
        assert((a + pre + core + rest)[a.len() as int] == pre[0]);
    } else {
        assert((a + pre + core + rest)[(a.len() + pre.len()) as int] == core[0]);
    }
}

/// The rules a valid bundle keeps.
pub open spec fn bundle_valid(m: BundleManifest) -> bool {
    &&& m.skills@.len() >= 2
    &&& m.steps@.len() <= 7
    &&& terms_within_limit(m.skills@)
    &&& !phase_mixed(m.skills@, m.steps@, CascadePhase::Pre)
    &&& !phase_mixed(m.skills@, m.steps@, CascadePhase::Core)
    &&& conflicts_ok(m.conflicts@, m.skills@)
    &&& complementarities_known(m.complementarities@, m.skills@)
    &&& sequential(sorted_ordinals(m.steps@))
}

/// The recommendations a bundle without warnings follows.
pub open spec fn bundle_clean(m: BundleManifest) -> bool {
    &&& lexicon_terms_of(m.skills@).len() <= 30
    &&& forall|j: int| 0 <= j < m.complementarities@.len() ==> (#[trigger] m.complementarities@[j]).skills@.len() == 2
    &&& m.version@.contains('.')
    &&& forall|k: int| 0 <= k < m.skills@.len() ==> (#[trigger] m.skills@[k]).content_hash@.len() > 0
}

proof fn lemma_term_errors(skills: Seq<BundleSkill>)
    ensures
        term_errors(skills).len() == 0 <==> terms_within_limit(skills),
    decreases skills.len(),
{
    if skills.len() > 0 {
        let pre = skills.drop_last();
        lemma_term_errors(pre);
        if terms_within_limit(pre) && skills.last().lexicon_terms@.len() <= 10 {
            assert forall|k: int| 0 <= k < skills.len() implies (#[trigger] skills[k]).lexicon_terms@.len() <= 10 by {
                if k < skills.len() - 1 {
                    assert(skills[k] == pre[k]);
                }
            }
        }
        if terms_within_limit(skills) {
            assert(skills[skills.len() - 1].lexicon_terms@.len() <= 10);
            assert forall|k: int| 0 <= k < pre.len() implies (#[trigger] pre[k]).lexicon_terms@.len() <= 10 by {
                assert(skills[k] == pre[k]);
            }
        }
    }
}

proof fn lemma_missing_refs(ids: Seq<String>, skills: Seq<BundleSkill>, what: Seq<char>)
    ensures
        missing_refs(ids, skills, what).len() == 0 <==> all_known(ids, skills),
    decreases ids.len(),
{
    if ids.len() > 0 {
        let pre = ids.drop_last();
        lemma_missing_refs(pre, skills, what);
        if all_known(pre, skills) && has_skill(skills, ids.last()@) {
            assert forall|j: int| 0 <= j < ids.len() implies has_skill(skills, (#[trigger] ids[j])@) by {
                if j < ids.len() - 1 {
                    assert(ids[j] == pre[j]);
                }
            }
        }
        if all_known(ids, skills) {
            assert(has_skill(skills, ids[ids.len() - 1]@));
            assert forall|j: int| 0 <= j < pre.len() implies has_skill(skills, (#[trigger] pre[j])@) by {
                assert(ids[j] == pre[j]);
            }
        }
    }
}

proof fn lemma_conflict_errors(cs: Seq<BundleConflict>, skills: Seq<BundleSkill>)
    ensures
        conflict_errors(cs, skills).len() == 0 <==> conflicts_ok(cs, skills),
    decreases cs.len(),
{
    if cs.len() > 0 {
        let pre = cs.drop_last();
        lemma_conflict_errors(pre, skills);
        lemma_missing_refs(cs.last().skills@, skills, "Conflict"@);
        if conflicts_ok(pre, skills) && cs.last().skills@.len() == 2 && all_known(cs.last().skills@, skills) {
            assert forall|j: int| 0 <= j < cs.len() implies (#[trigger] cs[j]).skills@.len() == 2 && all_known(cs[j].skills@, skills) by {
                if j < cs.len() - 1 {
                    assert(cs[j] == pre[j]);
                }
            }
        }
        if conflicts_ok(cs, skills) {
            assert(cs[cs.len() - 1].skills@.len() == 2);
            assert forall|j: int| 0 <= j < pre.len() implies (#[trigger] pre[j]).skills@.len() == 2 && all_known(pre[j].skills@, skills) by {
                assert(cs[j] == pre[j]);
            }
        }
    }
}

proof fn lemma_complementarity_errors(cs: Seq<BundleComplementarity>, skills: Seq<BundleSkill>)
    ensures
        complementarity_errors(cs, skills).len() == 0 <==> complementarities_known(cs, skills),
    decreases cs.len(),
{
    if cs.len() > 0 {
        let pre = cs.drop_last();
        lemma_complementarity_errors(pre, skills);
        lemma_missing_refs(cs.last().skills@, skills, "Complementarity"@);
        if complementarities_known(pre, skills) && all_known(cs.last().skills@, skills) {
            assert forall|j: int| 0 <= j < cs.len() implies all_known((#[trigger] cs[j]).skills@, skills) by {
                if j < cs.len() - 1 {
                    assert(cs[j] == pre[j]);
                }
            }
        }
        if complementarities_known(cs, skills) {
            assert(all_known(cs[cs.len() - 1].skills@, skills));
            assert forall|j: int| 0 <= j < pre.len() implies all_known((#[trigger] pre[j]).skills@, skills) by {
                assert(cs[j] == pre[j]);
            }
        }
    }
}

proof fn lemma_ordinal_errors(srt: Seq<u32>, i: int)
    requires
        0 <= i <= srt.len(),
    ensures
        ordinal_errors(srt, i).len() == 0 <==> forall|j: int| i <= j < srt.len() ==> #[trigger] srt[j] == j + 1,
    decreases srt.len() - i,
{
    if i < srt.len() && srt[i] == i + 1 {
        lemma_ordinal_errors(srt, i + 1);
    }
}

proof fn lemma_complementarity_warnings(cs: Seq<BundleComplementarity>)
    ensures
        complementarity_warnings(cs).len() == 0 <==> forall|j: int| 0 <= j < cs.len() ==> (#[trigger] cs[j]).skills@.len() == 2,
    decreases cs.len(),
{
    if cs.len() > 0 {
        let pre = cs.drop_last();
        lemma_complementarity_warnings(pre);
        if complementarity_warnings(cs).len() == 0 {
            assert forall|j: int| 0 <= j < cs.len() implies (#[trigger] cs[j]).skills@.len() == 2 by {
                if j < cs.len() - 1 {
                    assert(cs[j] == pre[j]);
                }
            }
        }
        if forall|j: int| 0 <= j < cs.len() ==> (#[trigger] cs[j]).skills@.len() == 2 {
            assert(cs[cs.len() - 1].skills@.len() == 2);
            assert forall|j: int| 0 <= j < pre.len() implies (#[trigger] pre[j]).skills@.len() == 2 by {
                assert(cs[j] == pre[j]);
            }
        }
    }
}

proof fn lemma_hash_warnings(skills: Seq<BundleSkill>)
    ensures
        hash_warnings(skills).len() == 0 <==> forall|k: int| 0 <= k < skills.len() ==> (#[trigger] skills[k]).content_hash@.len() > 0,
    decreases skills.len(),
{
    if skills.len() > 0 {
        let pre = skills.drop_last();
        lemma_hash_warnings(pre);
        if hash_warnings(skills).len() == 0 {
            assert forall|k: int| 0 <= k < skills.len() implies (#[trigger] skills[k]).content_hash@.len() > 0 by {
                if k < skills.len() - 1 {
                    assert(skills[k] == pre[k]);
                }
            }
        }
        if forall|k: int| 0 <= k < skills.len() ==> (#[trigger] skills[k]).content_hash@.len() > 0 {
            assert(skills[skills.len() - 1].content_hash@.len() > 0);
            assert forall|k: int| 0 <= k < pre.len() implies (#[trigger] pre[k]).content_hash@.len() > 0 by {
                assert(skills[k] == pre[k]);
            }
        }
    }
}

/// A bundle validates without errors exactly when it has at least two
/// skills, at most seven steps, no skill with more than ten lexicon terms,
/// no pre or core phase mixing generative and evaluative skills, conflicts
/// that each name two known skills, complementarities that name known
/// skills, and step ordinals that sort to `1, 2, 3, ...`.
pub proof fn lemma_bundle_valid(m: BundleManifest)
    ensures
        bundle_errors(m).len() == 0 <==> bundle_valid(m),
        sorted_ordinals(m.steps@).len() == m.steps@.len(),
{
    broadcast use vstd::multiset::group_multiset_axioms;
    broadcast use vstd::seq_lib::group_to_multiset_ensures;
    let o = m.steps@.map_values(|s: BundleManifestStep| s.ordinal);
    let leq = ordinal_leq();
    assert(total_ordering(leq));
    o.lemma_sort_by_ensures(leq);
    assert(o.len() == o.to_multiset().len());
    assert(o.sort_by(leq).len() == o.sort_by(leq).to_multiset().len());
    lemma_term_errors(m.skills@);
    lemma_phase_names(m.skills@, m.steps@, CascadePhase::Pre, SkillPolarity::Generative);
    lemma_phase_names(m.skills@, m.steps@, CascadePhase::Pre, SkillPolarity::Evaluative);
    lemma_phase_names(m.skills@, m.steps@, CascadePhase::Core, SkillPolarity::Generative);
    lemma_phase_names(m.skills@, m.steps@, CascadePhase::Core, SkillPolarity::Evaluative);
    lemma_conflict_errors(m.conflicts@, m.skills@);
    lemma_complementarity_errors(m.complementarities@, m.skills@);
    lemma_ordinal_errors(sorted_ordinals(m.steps@), 0);
}

/// A bundle validates without warnings exactly when it has at most 30
/// distinct lexicon terms, complementarities of two skills each, a version
/// with a dot, and a content hash for every skill. Warnings and errors are
/// checked apart, so warnings never decide validity.
pub proof fn lemma_bundle_clean(m: BundleManifest)
    ensures
        bundle_warnings(m).len() == 0 <==> bundle_clean(m),
{
    lemma_complementarity_warnings(m.complementarities@);
    lemma_hash_warnings(m.skills@);
}

/// Append `m` to `out`.
fn push_message(out: &mut Vec<String>, m: String)
    ensures
        names_view(final(out)@) == names_view(old(out)@).push(m@),
{
    let ghost before = names_view(out@);
    out.push(m);
    proof {
        assert(names_view(out@) =~= before.push(m@));
    }
}

/// `a`, the decimal digits of `n`, then `b`.
fn count_message(a: &str, n: u64, b: &str) -> (r: String)
    ensures
        r@ == a@ + decimal(n as nat) + b@,
{
    let mut m = String::from_str(a);
    push_decimal(&mut m, n);
    m.append(b);
    m
}

/// `a`, `b`, then `c`.
fn message3(a: &str, b: &str, c: &str) -> (r: String)
    ensures
        r@ == a@ + b@ + c@,
{
    let mut m = String::from_str(a);
    m.append(b);
    m.append(c);
    m
}

/// Sort step ordinals in ascending order.
fn sort_ordinals(v: &Vec<u32>) -> (r: Vec<u32>)
    ensures
        r@ == v@.sort_by(ordinal_leq()),
        r@.len() == v@.len(),
{
    broadcast use vstd::multiset::group_multiset_axioms;
    broadcast use vstd::seq_lib::group_to_multiset_ensures;
    let ghost leq = ordinal_leq();
    let mut r: Vec<u32> = Vec::new();
    let mut i: usize = 0;
    while i < v.len()
        invariant
            i <= v@.len(),
            leq == ordinal_leq(),
            sorted_by(r@, leq),
            r@.to_multiset() == v@.take(i as int).to_multiset(),
        decreases v@.len() - i,
    {
        let x = v[i];
        let mut j: usize = 0;
        while j < r.len() && r[j] <= x
            invariant
                j <= r@.len(),
                forall|k: int| 0 <= k < j ==> r@[k] <= x,
            decreases r@.len() - j,
        {
            j = j + 1;
        }
        let ghost old_r = r@;
        r.insert(j, x);
        proof {
            let a = old_r.subrange(0, j as int);
            let b = old_r.subrange(j as int, old_r.len() as int);
            assert(old_r =~= a + b);
            assert(r@ =~= a.push(x) + b);
            lemma_multiset_commutative(a, b);
            lemma_multiset_commutative(a.push(x), b);
            assert(v@.take(i + 1) =~= v@.take(i as int).push(x));
            v@.take(i as int).to_multiset_ensures();
            a.to_multiset_ensures();
            assert(v@.take(i + 1).to_multiset() =~= v@.take(i as int).to_multiset().insert(x));
            assert(a.push(x).to_multiset() =~= a.to_multiset().insert(x));
            assert((a + b).to_multiset() =~= a.to_multiset().add(b.to_multiset()));
            assert((a.push(x) + b).to_multiset() =~= a.push(x).to_multiset().add(b.to_multiset()));
            assert(a.to_multiset().insert(x).add(b.to_multiset()) =~= a.to_multiset().add(b.to_multiset()).insert(x));
            assert(r@.to_multiset() =~= v@.take(i + 1).to_multiset());
            assert forall|p: int, q: int| 0 <= p < q < r@.len() implies #[trigger] leq(r@[p], r@[q]) by {
                if q < j {
                    assert(leq(old_r[p], old_r[q]));
                } else if q == j {
                    assert(r@[p] == old_r[p]);
                } else if p < j {
                    assert(r@[p] == old_r[p]);
                    assert(r@[q] == old_r[q - 1]);
                    assert(leq(old_r[p], old_r[q - 1]));
                } else if p == j {
                    assert(j < old_r.len());
                    assert(old_r[j as int] > x);
                    assert(r@[q] == old_r[q - 1]);
                    if q - 1 > j {
                        assert(leq(old_r[j as int], old_r[q - 1]));
                    }
                } else {
                    assert(r@[p] == old_r[p - 1]);
                    assert(r@[q] == old_r[q - 1]);
                    assert(leq(old_r[p - 1], old_r[q - 1]));
                }
            }
        }
        i = i + 1;
    }
    proof {
        assert(v@.take(v@.len() as int) =~= v@);
        assert(r@.len() == r@.to_multiset().len());
        assert(v@.len() == v@.to_multiset().len());
        assert(total_ordering(leq));
        v@.lemma_sort_by_ensures(leq);
        lemma_sorted_unique(r@, v@.sort_by(leq), leq);
    }
    r
}

impl BundleManifest {
    /// The polarity of the first skill whose id is `id`.
    fn find_polarity(&self, id: &String) -> (r: Option<SkillPolarity>)
        ensures
            r == polarity_of(self.skills@, id@),
    {
        let mut i: usize = 0;
        proof {
            assert(self.skills@.skip(0) =~= self.skills@);
        }
        while i < self.skills.len()
            invariant
                i <= self.skills@.len(),
                polarity_of(self.skills@, id@) == polarity_of(self.skills@.skip(i as int), id@),
            decreases self.skills@.len() - i,
        {
            proof {
                assert(self.skills@.skip(i as int).drop_first() =~= self.skills@.skip(i + 1));
                assert(self.skills@.skip(i as int)[0] == self.skills@[i as int]);
            }
            if self.skills[i].id == *id {
                return Some(self.skills[i].polarity);
            }
            i = i + 1;
        }
        None
    }

    /// Whether some skill has id `id`.
    fn has_skill_id(&self, id: &String) -> (r: bool)
        ensures
            r == has_skill(self.skills@, id@),
    {
        let mut i: usize = 0;
        while i < self.skills.len()
            invariant
                i <= self.skills@.len(),
                forall|k: int| 0 <= k < i ==> self.skills@[k].id@ != id@,
            decreases self.skills@.len() - i,
        {
            if self.skills[i].id == *id {
                return true;
            }
            i = i + 1;
        }
        false
    }

    /// Whether some step in `phase` is described by the id of a skill of
    /// polarity `p`.
    fn phase_has_polarity(&self, phase: CascadePhase, p: SkillPolarity) -> (r: bool)
        ensures
            r == phase_has(self.skills@, self.steps@, phase, p),
    {
        let mut i: usize = 0;
        while i < self.steps.len()
            invariant
                i <= self.steps@.len(),
                forall|k: int| 0 <= k < i ==> !(self.steps@[k].phase == phase
                    && polarity_of(self.skills@, (#[trigger] self.steps@[k]).description@) == Some(p)),
            decreases self.steps@.len() - i,
        {
            if self.steps[i].phase == phase {
                match self.find_polarity(&self.steps[i].description) {
                    Some(q) => {
                        if q == p {
                            return true;
                        }
                    },
                    None => {},
                }
            }
            i = i + 1;
        }
        false
    }

    /// Append the errors for `ids` that are no skill's.
    fn push_missing_refs(&self, ids: &Vec<String>, what: &str, out: &mut Vec<String>)
        ensures
            names_view(final(out)@) == names_view(old(out)@) + missing_refs(ids@, self.skills@, what@),
    {
        let mut i: usize = 0;
        while i < ids.len()
            invariant
                i <= ids@.len(),
                names_view(out@) == names_view(old(out)@) + missing_refs(ids@.take(i as int), self.skills@, what@),
            decreases ids@.len() - i,
        {
            proof {
                assert(ids@.take(i + 1).drop_last() =~= ids@.take(i as int));
            }
            if !self.has_skill_id(&ids[i]) {
                let mut m = String::from_str(what);
                m.append(" references skill '");
                m.append(ids[i].as_str());
                m.append("' not found in bundle");
                push_message(out, m);
            }
            proof {
                assert(names_view(out@) =~= names_view(old(out)@) + missing_refs(ids@.take(i + 1), self.skills@, what@));
            }
            i = i + 1;
        }
        proof {
            assert(ids@.take(ids@.len() as int) =~= ids@);
        }
    }

    /// The number of distinct lexicon terms over all skills.
    fn count_unique_terms(&self) -> (r: usize)
        ensures
            r == lexicon_terms_of(self.skills@).len(),
    {
        let mut seen: Vec<String> = Vec::new();
        let mut i: usize = 0;
        proof {
            assert(names_view(seen@).to_set() =~= terms_upto(self.skills@, 0));
        }
        while i < self.skills.len()
            invariant
                i <= self.skills@.len(),
                names_view(seen@).no_duplicates(),
                names_view(seen@).to_set() == terms_upto(self.skills@, i as int),
            decreases self.skills@.len() - i,
        {
            let terms = &self.skills[i].lexicon_terms;
            let mut j: usize = 0;
            while j < terms.len()
                invariant
                    i < self.skills@.len(),
                    terms == self.skills@[i as int].lexicon_terms,
                    j <= terms@.len(),
                    names_view(seen@).no_duplicates(),
                    forall|t: Seq<char>| names_view(seen@).contains(t) <==> (terms_upto(self.skills@, i as int).contains(t)
                        || exists|b: int| 0 <= b < j && (#[trigger] terms@[b])@ == t),
                decreases terms@.len() - j,
            {
                let ghost before = names_view(seen@);
                add_name(&mut seen, &terms[j]);
                proof {
                    assert forall|t: Seq<char>| names_view(seen@).contains(t) <==> (terms_upto(self.skills@, i as int).contains(t)
                        || exists|b: int| 0 <= b < j + 1 && (#[trigger] terms@[b])@ == t) by {
                        if t == terms@[j as int]@ {
                            assert(terms@[j as int]@ == t);
                        }
                        if exists|b: int| 0 <= b < j + 1 && (#[trigger] terms@[b])@ == t {
                            let b = choose|b: int| 0 <= b < j + 1 && (#[trigger] terms@[b])@ == t;
                            if b < j {
                                assert(before.contains(t));
                            }
                        }
                    }
                }
                j = j + 1;
            }
            proof {
                assert forall|t: Seq<char>| names_view(seen@).to_set().contains(t) <==> terms_upto(self.skills@, i + 1).contains(t) by {
                    if terms_upto(self.skills@, i + 1).contains(t) {
                        let (a, b) = choose|a: int, b: int| 0 <= a < i + 1 && 0 <= b < self.skills@[a].lexicon_terms@.len()
                            && (#[trigger] self.skills@[a].lexicon_terms@[b])@ == t;
                        if a < i {
                            assert(terms_upto(self.skills@, i as int).contains(t));
                        } else {
                            assert(terms@[b]@ == t);
                        }
                    }
                    if names_view(seen@).contains(t) {
                        if !terms_upto(self.skills@, i as int).contains(t) {
                            let b = choose|b: int| 0 <= b < j && (#[trigger] terms@[b])@ == t;
                            assert(self.skills@[i as int].lexicon_terms@[b]@ == t);
                        } else {
                            let (a, b) = choose|a: int, b: int| 0 <= a < i && 0 <= b < self.skills@[a].lexicon_terms@.len()
                                && (#[trigger] self.skills@[a].lexicon_terms@[b])@ == t;
                            assert(self.skills@[a].lexicon_terms@[b]@ == t);
                        }
                    }
                }
                assert(names_view(seen@).to_set() =~= terms_upto(self.skills@, i + 1));
            }
            i = i + 1;
        }
        proof {
            names_view(seen@).unique_seq_to_set();
        }
        seen.len()
    }

    /// Check the bundle against its rules: errors for hard violations,
    /// warnings for soft recommendations.
    pub fn validate(&self) -> (r: ValidationResult)
        requires
            !ordinal_count_overflows(self.steps@),
        ensures
            names_view(r.errors@) == bundle_errors(*self),
            names_view(r.warnings@) == bundle_warnings(*self),
            r.errors@.len() == 0 <==> bundle_valid(*self),
            r.warnings@.len() == 0 <==> bundle_clean(*self),
    {
        let mut errors: Vec<String> = Vec::new();
        let mut warnings: Vec<String> = Vec::new();
        proof {
            reveal_strlit("");
        }
        let ghost sv = self.skills@;
        let ghost stv = self.steps@;
        if self.skills.len() < 2 {
            push_message(&mut errors, count_message("Bundle must have at least 2 skills, found ", self.skills.len() as u64, ""));
        }
        proof {
            assert(names_view(errors@) =~= skill_count_errors(sv.len()));
        }
        if self.steps.len() > 7 {
            push_message(&mut errors, count_message("Cascade depth exceeds matroshka limit (", self.steps.len() as u64, " steps, max 7)"));
        }
        let ghost e1 = names_view(errors@);
        proof {
            assert(e1 =~= skill_count_errors(sv.len()) + step_count_errors(stv.len()));
        }
        let mut i: usize = 0;
        while i < self.skills.len()
            invariant
                i <= sv.len(),
                sv == self.skills@,
                names_view(errors@) == e1 + term_errors(sv.take(i as int)),
            decreases sv.len() - i,
        {
            proof {
                assert(sv.take(i + 1).drop_last() =~= sv.take(i as int));
            }
            let skill = &self.skills[i];
            if skill.lexicon_terms.len() > 10 {
                let mut m = String::from_str("Skill '");
                m.append(skill.id.as_str());
                m.append("' has ");
                push_decimal(&mut m, skill.lexicon_terms.len() as u64);
                m.append(" lexicon terms (max 10)");
                push_message(&mut errors, m);
            }
            proof {
                assert(names_view(errors@) =~= e1 + term_errors(sv.take(i + 1)));
            }
            i = i + 1;
        }
        proof {
            assert(sv.take(sv.len() as int) =~= sv);
        }
        let unique = self.count_unique_terms();
        if unique > 30 {
            push_message(&mut warnings, count_message("Bundle has ", unique as u64, " unique lexicon terms (recommended max 30)"));
        }
        proof {
            assert(names_view(warnings@) =~= unique_term_warnings(lexicon_terms_of(sv).len()));
        }
        let ghost e2 = names_view(errors@);
        if self.phase_has_polarity(CascadePhase::Pre, SkillPolarity::Generative)
            && self.phase_has_polarity(CascadePhase::Pre, SkillPolarity::Evaluative) {
            push_message(&mut errors, message3("P1 violation: divergent and convergent skills in same ", "Pre", " phase"));
        }
        proof {
            reveal_strlit("Pre");
            assert(names_view(errors@) =~= e2 + polarity_errors_in(sv, stv, CascadePhase::Pre));
        }
        let ghost e3 = names_view(errors@);
        if self.phase_has_polarity(CascadePhase::Core, SkillPolarity::Generative)
            && self.phase_has_polarity(CascadePhase::Core, SkillPolarity::Evaluative) {
            push_message(&mut errors, message3("P1 violation: divergent and convergent skills in same ", "Core", " phase"));
        }
        proof {
            reveal_strlit("Core");
            assert(names_view(errors@) =~= e3 + polarity_errors_in(sv, stv, CascadePhase::Core));
        }
        let ghost e4 = names_view(errors@);
        let mut c: usize = 0;
        while c < self.conflicts.len()
            invariant
                c <= self.conflicts@.len(),
                sv == self.skills@,
                names_view(errors@) == e4 + conflict_errors(self.conflicts@.take(c as int), sv),
            decreases self.conflicts@.len() - c,
        {
            proof {
                assert(self.conflicts@.take(c + 1).drop_last() =~= self.conflicts@.take(c as int));
                assert(self.conflicts@.take(c + 1).last() == self.conflicts@[c as int]);
                reveal_strlit("");
            }
            let conflict = &self.conflicts[c];
            self.push_missing_refs(&conflict.skills, "Conflict", &mut errors);
            if conflict.skills.len() != 2 {
                push_message(&mut errors, count_message("Conflict must reference exactly 2 skills, found ", conflict.skills.len() as u64, ""));
            }
            proof {
                assert(names_view(errors@) =~= e4 + conflict_errors(self.conflicts@.take(c + 1), sv));
            }
            c = c + 1;
        }
        proof {
            assert(self.conflicts@.take(self.conflicts@.len() as int) =~= self.conflicts@);
        }
        let ghost e5 = names_view(errors@);
        let ghost w1 = names_view(warnings@);
        let mut c: usize = 0;
        while c < self.complementarities.len()
            invariant
                c <= self.complementarities@.len(),
                sv == self.skills@,
                names_view(errors@) == e5 + complementarity_errors(self.complementarities@.take(c as int), sv),
                names_view(warnings@) == w1 + complementarity_warnings(self.complementarities@.take(c as int)),
            decreases self.complementarities@.len() - c,
        {
            proof {
                assert(self.complementarities@.take(c + 1).drop_last() =~= self.complementarities@.take(c as int));
                assert(self.complementarities@.take(c + 1).last() == self.complementarities@[c as int]);
                reveal_strlit("");
            }
            let comp = &self.complementarities[c];
            self.push_missing_refs(&comp.skills, "Complementarity", &mut errors);
            if comp.skills.len() != 2 {
                push_message(&mut warnings, count_message("Complementarity typically references 2 skills, found ", comp.skills.len() as u64, ""));
            }
            proof {
                assert(names_view(errors@) =~= e5 + complementarity_errors(self.complementarities@.take(c + 1), sv));
                assert(names_view(warnings@) =~= w1 + complementarity_warnings(self.complementarities@.take(c + 1)));
            }
            c = c + 1;
        }
        proof {
            assert(self.complementarities@.take(self.complementarities@.len() as int) =~= self.complementarities@);
        }
        let mut ords: Vec<u32> = Vec::new();
        let mut k: usize = 0;
        while k < self.steps.len()
            invariant
                k <= stv.len(),
                stv == self.steps@,
                ords@ == stv.take(k as int).map_values(|s: BundleManifestStep| s.ordinal),
            decreases stv.len() - k,
        {
            ords.push(self.steps[k].ordinal);
            proof {
                assert(stv.take(k + 1).map_values(|s: BundleManifestStep| s.ordinal)
                    =~= stv.take(k as int).map_values(|s: BundleManifestStep| s.ordinal).push(stv[k as int].ordinal));
            }
            k = k + 1;
        }
        proof {
            assert(stv.take(stv.len() as int) =~= stv);
        }
        let sorted = sort_ordinals(&ords);
        let ghost srt = sorted@;
        let ghost e6 = names_view(errors@);
        let mut k: usize = 0;
        while k < sorted.len()
            invariant_except_break
                k <= srt.len(),
                srt == sorted@,
                srt.len() == stv.len(),
                !ordinal_count_overflows(stv),
                srt == sorted_ordinals(stv),
                names_view(errors@) == e6,
                ordinal_errors(srt, 0) == ordinal_errors(srt, k as int),
            ensures
                names_view(errors@) == e6 + ordinal_errors(srt, 0),
            decreases srt.len() - k,
        {
            if (sorted[k] as u64) != (k as u64) + 1 {
                push_message(&mut errors, {
                    let mut m = String::from_str("Step ordinals not sequential: expected ");
                    push_decimal(&mut m, (k as u64) + 1);
                    m.append(", found ");
                    push_decimal(&mut m, sorted[k] as u64);
                    m
                });
                proof {
                    assert(names_view(errors@) =~= e6 + ordinal_errors(srt, 0));
                }
                break;
            }
            k = k + 1;
        }
        proof {
            if k == srt.len() {
                assert(names_view(errors@) =~= e6 + ordinal_errors(srt, 0));
            }
        }
        let ghost w2 = names_view(warnings@);
        let vchars = crate::text::str_chars(self.version.as_str());
        if !crate::text::contains_char(&vchars, '.') {
            push_message(&mut warnings, message3("Version '", self.version.as_str(), "' does not follow semantic versioning"));
        }
        proof {
            assert(names_view(warnings@) =~= w2 + version_warnings(self.version@));
        }
        let ghost w3 = names_view(warnings@);
        let mut i: usize = 0;
        while i < self.skills.len()
            invariant
                i <= sv.len(),
                sv == self.skills@,
                names_view(warnings@) == w3 + hash_warnings(sv.take(i as int)),
            decreases sv.len() - i,
        {
            proof {
                assert(sv.take(i + 1).drop_last() =~= sv.take(i as int));
            }
            if self.skills[i].content_hash.as_str().unicode_len() == 0 {
                push_message(&mut warnings, message3("Skill '", self.skills[i].id.as_str(), "' has empty content_hash"));
            }
            proof {
                assert(names_view(warnings@) =~= w3 + hash_warnings(sv.take(i + 1)));
            }
            i = i + 1;
        }
        proof {
            assert(sv.take(sv.len() as int) =~= sv);
            assert(names_view(errors@) =~= bundle_errors(*self));
            assert(names_view(warnings@) =~= bundle_warnings(*self));
            assert(names_view(errors@).len() == errors@.len());
            assert(names_view(warnings@).len() == warnings@.len());
            lemma_bundle_valid(*self);
            lemma_bundle_clean(*self);
        }
        ValidationResult { errors, warnings }
    }
}

} // verus!
