//! The curation of template outputs: the decision on an invocation's
//! outputs, the object-capability check, the merging of outputs and the
//! errors of the pipeline.
use vstd::prelude::*;
use vstd::string::*;
use crate::decimal::{decimal, push_decimal};
use crate::lexicon::trim;
use crate::text::has_sub;

verus! {

/// Why a curation step failed.
#[derive(Debug)]
pub enum CurationError {
    /// No invocation has this id.
    InvocationNotFound(String),
    /// An object-capability boundary was crossed.
    OcapViolation(String),
    /// The evaluation itself failed.
    Evaluation(String),
}

/// The text of a curation error.
pub open spec fn curation_error_text(e: CurationError) -> Seq<char> {
    match e {
        CurationError::InvocationNotFound(m) => "Invocation not found: "@ + m@,
        CurationError::OcapViolation(m) => "OCAP violation: "@ + m@,
        CurationError::Evaluation(m) => "Evaluation error: "@ + m@,
    }
}

impl CurationError {
    /// The text of the error.
    pub fn message(&self) -> (r: String)
        ensures
            r@ == curation_error_text(*self),
    {
        let (head, m) = match self {
            CurationError::InvocationNotFound(m) => ("Invocation not found: ", m),
            CurationError::OcapViolation(m) => ("OCAP violation: ", m),
            CurationError::Evaluation(m) => ("Evaluation error: ", m),
        };
        let mut r = String::from_str(head);
        r.append(m.as_str());
        r
    }
}

/// What the Curator decides on an invocation's outputs.
#[derive(Debug, Clone, Copy, PartialEq, Eq, Structural)]
pub enum CurationDecision {
    Merge,
    Discard,
    Revise,
    Defer,
}

/// How a template invocation ended.
#[derive(Debug, Clone, Copy, PartialEq, Eq, Structural)]
pub enum TemplateOutcome {
    Success,
    Failure,
    Merged,
    Discarded,
}

/// The authority an object-capability boundary grants.
#[derive(Debug, Clone, Copy, PartialEq, Eq, Structural)]
pub enum AuthorityLevel {
    Denied,
    Explicit,
    Implicit,
}

/// An object-capability boundary: a capability (a template id, or `*` for
/// all), the authority it grants and whether it is enforced.
#[derive(Debug, Clone)]
pub struct OcapBoundary {
    pub capability: String,
    pub authority: AuthorityLevel,
    pub enforced: bool,
}

/// The Curator's evaluation of one invocation.
#[derive(Debug, Clone)]
pub struct EvaluationResult {
    pub invocation_id: String,
    pub decision: CurationDecision,
    pub rationale: Option<String>,
    pub ocap_checked: bool,
    pub variety_impact: i64,
}

impl EvaluationResult {
    /// A result with no rationale, unchecked, of no variety impact.
    pub fn new(invocation_id: String, decision: CurationDecision) -> (r: EvaluationResult)
        ensures
            r.invocation_id@ == invocation_id@,
            r.decision == decision,
            r.rationale is None,
            !r.ocap_checked,
            r.variety_impact == 0,
    {
        EvaluationResult { invocation_id, decision, rationale: None, ocap_checked: false, variety_impact: 0 }
    }

    /// The result with `rationale`.
    pub fn with_rationale(self, rationale: &str) -> (r: EvaluationResult)
        ensures
            r.rationale matches Some(t) && t@ == rationale@,
            r.invocation_id == self.invocation_id,
            r.decision == self.decision,
            r.ocap_checked == self.ocap_checked,
            r.variety_impact == self.variety_impact,
    {
        EvaluationResult { rationale: Some(String::from_str(rationale)), ..self }
    }

    /// The result with the capability check recorded as `checked`.
    pub fn with_ocap_check(self, checked: bool) -> (r: EvaluationResult)
        ensures
            r.ocap_checked == checked,
            r.invocation_id == self.invocation_id,
            r.decision == self.decision,
            r.rationale == self.rationale,
            r.variety_impact == self.variety_impact,
    {
        EvaluationResult { ocap_checked: checked, ..self }
    }

    /// The result with the variety impact `impact`.
    pub fn with_variety_impact(self, impact: i64) -> (r: EvaluationResult)
        ensures
            r.variety_impact == impact,
            r.invocation_id == self.invocation_id,
            r.decision == self.decision,
            r.rationale == self.rationale,
            r.ocap_checked == self.ocap_checked,
    {
        EvaluationResult { variety_impact: impact, ..self }
    }
}

/// The first text output that is blank or carries an error marker, with
/// the decision it forces.
pub open spec fn first_flaw(outputs: Seq<Option<String>>) -> Option<(CurationDecision, Seq<char>)>
    decreases outputs.len(),
{
    if outputs.len() == 0 {
        None
    } else {
        match outputs[0] {
            Some(t) => if trim(t@).len() == 0 {
                Some((CurationDecision::Revise, "Output is empty"@))
            } else if has_sub(t@, "ERROR"@) || has_sub(t@, "FAILED"@) {
                Some((CurationDecision::Discard, "Output contains error markers"@))
            } else {
                first_flaw(outputs.drop_first())
            },
            None => first_flaw(outputs.drop_first()),
        }
    }
}

/// The Curator's decision on outputs (each the text of a text output, or
/// none) of an invocation that ended with `outcome`, and its rationale.
pub open spec fn quality_verdict(outputs: Seq<Option<String>>, outcome: TemplateOutcome) -> (CurationDecision, Seq<char>) {
    if outputs.len() == 0 {
        (CurationDecision::Discard, "No outputs generated"@)
    } else {
        match outcome {
            TemplateOutcome::Success => match first_flaw(outputs) {
                Some(v) => v,
                None => if outputs.len() > 1 {
                    (CurationDecision::Merge,
                        "Selected best of "@ + decimal(outputs.len()) + " outputs (ideological: logical ideas)"@)
                } else {
                    (CurationDecision::Merge, "Output is logical and sound"@)
                },
            },
            TemplateOutcome::Failure => (CurationDecision::Discard, "Template invocation failed"@),
            TemplateOutcome::Merged => (CurationDecision::Merge, "Output already merged by bot"@),
            TemplateOutcome::Discarded => (CurationDecision::Discard, "Output already discarded"@),
        }
    }
}

fn flaw_of(outputs: &Vec<Option<String>>) -> (r: Option<(CurationDecision, String)>)
    ensures
        match first_flaw(outputs@) {
            Some((d, m)) => r matches Some((rd, rm)) && rd == d && rm@ == m,
            None => r is None,
        },
{
    let mut i: usize = 0;
    proof {
        assert(outputs@.skip(0) =~= outputs@);
        reveal_strlit("ERROR");
        reveal_strlit("FAILED");
    }
    while i < outputs.len()
        invariant
            i <= outputs@.len(),
            first_flaw(outputs@) == first_flaw(outputs@.skip(i as int)),
        decreases outputs@.len() - i,
    {
        proof {
            assert(outputs@.skip(i as int).drop_first() =~= outputs@.skip(i + 1));
            assert(outputs@.skip(i as int)[0] == outputs@[i as int]);
        }
        match &outputs[i] {
            Some(t) => {
                let c = crate::text::str_chars(t.as_str());
                let (a, b) = crate::lexicon::trim_window(&c, 0, c.len());
                proof {
                    assert(c@.subrange(0, c@.len() as int) =~= t@);
                }
                if a == b {
                    return Some((CurationDecision::Revise, String::from_str("Output is empty")));
                }
                if crate::text::contains_str(&c, "ERROR") || crate::text::contains_str(&c, "FAILED") {
                    return Some((CurationDecision::Discard, String::from_str("Output contains error markers")));
                }
            },
            None => {},
        }
        i = i + 1;
    }
    proof {
        assert(outputs@.skip(i as int).len() == 0);
    }
    None
}

/// Decide on the outputs of an invocation (each output's text when it is
/// text) that ended with `outcome`: the decision and its rationale.
pub fn evaluate_quality(outputs: &Vec<Option<String>>, outcome: TemplateOutcome) -> (r: (CurationDecision, String))
    ensures
        r.0 == quality_verdict(outputs@, outcome).0,
        r.1@ == quality_verdict(outputs@, outcome).1,
{
    if outputs.len() == 0 {
        return (CurationDecision::Discard, String::from_str("No outputs generated"));
    }
    match outcome {
        TemplateOutcome::Success => {
            match flaw_of(outputs) {
                Some(v) => v,
                None => {
                    if outputs.len() > 1 {
                        let mut m = String::from_str("Selected best of ");
                        push_decimal(&mut m, outputs.len() as u64);
                        m.append(" outputs (ideological: logical ideas)");
                        (CurationDecision::Merge, m)
                    } else {
                        (CurationDecision::Merge, String::from_str("Output is logical and sound"))
                    }
                },
            }
        },
        TemplateOutcome::Failure => (CurationDecision::Discard, String::from_str("Template invocation failed")),
        TemplateOutcome::Merged => (CurationDecision::Merge, String::from_str("Output already merged by bot")),
        TemplateOutcome::Discarded => (CurationDecision::Discard, String::from_str("Output already discarded")),
    }
}

/// An enforced boundary that applies to `template_id` (by its id or `*`)
/// denies it.
pub open spec fn denies(b: OcapBoundary, template_id: Seq<char>) -> bool {
    b.enforced && (b.capability@ == template_id || b.capability@ == "*"@) && b.authority == AuthorityLevel::Denied
}

/// Whether the boundaries let an invocation of `template_id` through: no
/// enforced boundary that applies to it denies it.
pub fn check_ocap(boundaries: &Vec<OcapBoundary>, template_id: &str) -> (r: bool)
    ensures
        r == !exists|i: int| 0 <= i < boundaries@.len() && denies(#[trigger] boundaries@[i], template_id@),
{
    let mut i: usize = 0;
    proof {
        reveal_strlit("*");
    }
    while i < boundaries.len()
        invariant
            i <= boundaries@.len(),
            forall|k: int| 0 <= k < i ==> !denies(#[trigger] boundaries@[k], template_id@),
        decreases boundaries@.len() - i,
    {
        let b = &boundaries[i];
        if b.enforced && (crate::text::str_eq(b.capability.as_str(), template_id) || crate::text::str_eq(b.capability.as_str(), "*")) {
            match b.authority {
                AuthorityLevel::Denied => {
                    proof {
                        assert(denies(boundaries@[i as int], template_id@));
                    }
                    return false;
                },
                _ => {},
            }
        }
        i = i + 1;
    }
    true
}

/// The separator between merged outputs.
pub open spec fn merge_separator() -> Seq<char> {
    "\n\n---\n\n"@
}

/// The text outputs among the first `n`, joined: each text output after the
/// first output (text or not) is preceded by the separator.
pub open spec fn merged_upto(outputs: Seq<Option<String>>, n: int) -> Seq<char>
    decreases n,
{
    if n <= 0 || n > outputs.len() {
        Seq::empty()
    } else {
        match outputs[n - 1] {
            Some(t) => merged_upto(outputs, n - 1) + (if n - 1 > 0 { merge_separator() } else { Seq::empty() }) + t@,
            None => merged_upto(outputs, n - 1),
        }
    }
}

/// Merge outputs (each output's text when it is text) into one text: none
/// when there is no output.
pub fn merge_outputs(outputs: &Vec<Option<String>>) -> (r: Option<String>)
    ensures
        outputs@.len() == 0 ==> r is None,
        outputs@.len() > 0 ==> (r matches Some(m) && m@ == merged_upto(outputs@, outputs@.len() as int)),
{
    if outputs.len() == 0 {
        return None;
    }
    let mut merged = String::new();
    let mut i: usize = 0;
    while i < outputs.len()
        invariant
            i <= outputs@.len(),
            merged@ == merged_upto(outputs@, i as int),
        decreases outputs@.len() - i,
    {
        match &outputs[i] {
            Some(t) => {
                if i > 0 {
                    merged.append("\n\n---\n\n");
                }
                merged.append(t.as_str());
            },
            None => {},
        }
        i = i + 1;
    }
    Some(merged)
}

} // verus!
