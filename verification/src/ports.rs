//! Errors and findings shared by the template machinery.
use vstd::prelude::*;
use crate::json::{json_view, Json, JsonView};
use vstd::string::*;
use crate::decimal::{decimal, push_decimal};

verus! {

/// Error type for template operations.
#[derive(Debug, Clone)]
pub enum TemplateError {
    /// A template, manifest or other entry was not found.
    NotFound(String),
    /// Rendering failed.
    Render(String),
    /// A manifest is malformed or its execution failed.
    Manifest(String),
    /// Storage failed.
    Database(String),
    /// Inference failed.
    Inference(String),
    /// A tool invocation failed.
    Mcp(String),
    /// Validation failed.
    Validation(String),
    /// A path escapes its root.
    PathTraversal(String),
    /// A sandbox rule was broken.
    SandboxViolation(String),
    /// A capability was denied.
    CapabilityDenied(String),
    /// A skill could not be loaded from `path`.
    SkillLoad { path: String, source: String },
    /// SKILL.md front matter is missing or malformed; `detail` names the repair.
    Frontmatter { detail: String },
    /// The nesting limit `max` was exceeded.
    RecursionLimit { max: u8 },
    /// An operation was refused by a rate limit.
    RateLimitExceeded(String),
}

/// Why a manifest reference did not resolve.
#[derive(Debug, Clone)]
pub enum ManifestResolveError {
    /// The reference matched no registry entry and no file path.
    NotFound { reference: String },
    /// A file path matched but the manifest failed to load; `source` says why.
    LoadFailed { reference: String, source: String },
    /// The manifest loaded but is not a `skill` category.
    NotASkill { reference: String, category: String },
}

/// One skill-system finding: a stable code, the skill it concerns and a
/// detail naming the repair.
#[derive(Debug, Clone, PartialEq, Eq)]
pub struct SkillFinding {
    /// The skill or manifest the finding refers to.
    pub skill_id: String,
    /// Stable code that consumers switch on.
    pub code: &'static str,
    /// Human-readable detail naming the exact repair.
    pub detail: String,
}

impl SkillFinding {
    /// The human-facing row: `[code] skill: detail`.
    pub fn row(&self) -> (r: String)
        ensures
            r@ == "["@ + self.code@ + "] "@ + self.skill_id@ + ": "@ + self.detail@,
    {
        let mut r = String::from_str("[");
        r.append(self.code);
        r.append("] ");
        r.append(self.skill_id.as_str());
        r.append(": ");
        r.append(self.detail.as_str());
        r
    }

    /// The machine-facing JSON object: `skill_id`, `code` and `detail`.
    pub fn json(&self) -> (r: Json)
        ensures
            json_view(r) == JsonView::Object(seq![
                ("skill_id"@, JsonView::Text(self.skill_id@)),
                ("code"@, JsonView::Text(self.code@)),
                ("detail"@, JsonView::Text(self.detail@)),
            ]),
    {
        let mut fields: Vec<(String, Json)> = Vec::new();
        fields.push((String::from_str("skill_id"), Json::Text(self.skill_id.clone())));
        fields.push((String::from_str("code"), Json::Text(String::from_str(self.code))));
        fields.push((String::from_str("detail"), Json::Text(self.detail.clone())));
        let r = Json::Object(fields);
        proof {
            let fs = fields@;
            assert(fs.subrange(1, 3).subrange(1, 2).subrange(1, 1) =~= Seq::<(String, Json)>::empty());
            assert(crate::json::fields_view(fs) =~= seq![
                ("skill_id"@, JsonView::Text(self.skill_id@)),
                ("code"@, JsonView::Text(self.code@)),
                ("detail"@, JsonView::Text(self.detail@)),
            ]) by {
                reveal_with_fuel(crate::json::fields_view, 4);
            }
        }
        r
    }
}

/// The text of an error.
pub open spec fn error_text(e: TemplateError) -> Seq<char> {
    match e {
        TemplateError::NotFound(m) => "Template not found: "@ + m@,
        TemplateError::Render(m) => "Render error: "@ + m@,
        TemplateError::Manifest(m) => "Manifest error: "@ + m@,
        TemplateError::Database(m) => "Database error: "@ + m@,
        TemplateError::Inference(m) => "Inference error: "@ + m@,
        TemplateError::Mcp(m) => "MCP error: "@ + m@,
        TemplateError::Validation(m) => "Validation error: "@ + m@,
        TemplateError::PathTraversal(m) => "Path traversal attempt: "@ + m@,
        TemplateError::SandboxViolation(m) => "Sandbox violation: "@ + m@,
        TemplateError::CapabilityDenied(m) => "Capability denied: "@ + m@,
        TemplateError::SkillLoad { path, source } => "skill load error at "@ + path@ + ": "@ + source@,
        TemplateError::Frontmatter { detail } => "SKILL.md frontmatter error: "@ + detail@,
        TemplateError::RecursionLimit { max } => "Recursion limit exceeded (max depth: "@ + decimal(max as nat) + ")"@,
        TemplateError::RateLimitExceeded(m) => "Rate limit exceeded: "@ + m@,
    }
}

/// `a` followed by `b`.
fn join2(a: &str, b: &str) -> (r: String)
    ensures
        r@ == a@ + b@,
{
    let mut r = String::from_str(a);
    r.append(b);
    r
}

impl TemplateError {
    /// The text of the error.
    pub fn message(&self) -> (r: String)
        ensures
            r@ == error_text(*self),
    {
        match self {
            TemplateError::NotFound(m) => join2("Template not found: ", m.as_str()),
            TemplateError::Render(m) => join2("Render error: ", m.as_str()),
            TemplateError::Manifest(m) => join2("Manifest error: ", m.as_str()),
            TemplateError::Database(m) => join2("Database error: ", m.as_str()),
            TemplateError::Inference(m) => join2("Inference error: ", m.as_str()),
            TemplateError::Mcp(m) => join2("MCP error: ", m.as_str()),
            TemplateError::Validation(m) => join2("Validation error: ", m.as_str()),
            TemplateError::PathTraversal(m) => join2("Path traversal attempt: ", m.as_str()),
            TemplateError::SandboxViolation(m) => join2("Sandbox violation: ", m.as_str()),
            TemplateError::CapabilityDenied(m) => join2("Capability denied: ", m.as_str()),
            TemplateError::SkillLoad { path, source } => {
                let mut r = join2("skill load error at ", path.as_str());
                r.append(": ");
                r.append(source.as_str());
                r
            },
            TemplateError::Frontmatter { detail } => join2("SKILL.md frontmatter error: ", detail.as_str()),
            TemplateError::RecursionLimit { max } => {
                let mut r = String::from_str("Recursion limit exceeded (max depth: ");
                push_decimal(&mut r, *max as u64);
                r.append(")");
                r
            },
            TemplateError::RateLimitExceeded(m) => join2("Rate limit exceeded: ", m.as_str()),
        }
    }
}

} // verus!
