use hkask_templates::bundle::{
    BundleComplementarity, BundleConflict, BundleManifest, BundleManifestStep, BundleSkill, CascadePhase,
    SkillPolarity, ValidationResult,
};

fn skill(id: &str, polarity: SkillPolarity, terms: usize, hash: &str) -> BundleSkill {
    BundleSkill {
        id: id.to_string(),
        polarity,
        lexicon_terms: (0..terms).map(|i| format!("{id}-term-{i}")).collect(),
        manifest_ref: format!("{id}.yaml"),
        content_hash: hash.to_string(),
    }
}

fn step(ordinal: u32, description: &str, phase: CascadePhase) -> BundleManifestStep {
    BundleManifestStep {
        ordinal,
        action: "populate".to_string(),
        description: description.to_string(),
        renderer: None,
        template_ref: None,
        mcp: None,
        gas_cap: 10 * ordinal,
        timeout_seconds: 30,
        input_mapping: None,
        output_schema: None,
        phase,
        condition: None,
    }
}

fn bundle(skills: Vec<BundleSkill>, steps: Vec<BundleManifestStep>) -> BundleManifest {
    BundleManifest {
        id: "b".to_string(),
        name: "B".to_string(),
        description: "A bundle".to_string(),
        version: "1.0.0".to_string(),
        editor: "me".to_string(),
        skills,
        conflicts: vec![],
        complementarities: vec![],
        steps,
        functional_role: None,
        inputs: None,
        principles: None,
    }
}

#[test]
fn polarity_names_round_trip() {
    for p in [SkillPolarity::Generative, SkillPolarity::Evaluative, SkillPolarity::Regulative, SkillPolarity::Procedural] {
        assert_eq!(SkillPolarity::parse_str(p.as_str()), Some(p));
    }
    assert_eq!(SkillPolarity::parse_str("evaluative"), Some(SkillPolarity::Evaluative));
    assert_eq!(SkillPolarity::parse_str("EVALUATIVE"), None);
    assert!(SkillPolarity::Generative.is_divergent());
    assert!(!SkillPolarity::Generative.is_convergent());
    assert!(SkillPolarity::Evaluative.is_convergent());
    assert!(!SkillPolarity::Regulative.is_divergent());
}

#[test]
fn valid_bundle_has_no_errors() {
    let b = bundle(
        vec![skill("gen", SkillPolarity::Generative, 3, "h1"), skill("eval", SkillPolarity::Evaluative, 3, "h2")],
        vec![step(2, "eval", CascadePhase::Core), step(1, "gen", CascadePhase::Pre)],
    );
    let r = b.validate();
    assert!(r.is_valid(), "{:?}", r.errors);
    assert!(!r.has_warnings(), "{:?}", r.warnings);
    assert_eq!(b.total_step_gas(), 30);
    assert_eq!(b.skill_ids(), vec!["gen".to_string(), "eval".to_string()]);
}

#[test]
fn every_rule_reports_its_violation() {
    let mut b = bundle(
        vec![skill("gen", SkillPolarity::Generative, 11, "")],
        (1..=8).map(|i| step(i, if i % 2 == 0 { "gen" } else { "eval" }, CascadePhase::Core)).collect(),
    );
    b.skills.push(skill("eval", SkillPolarity::Evaluative, 25, "h"));
    b.steps[7].ordinal = 9;
    b.version = "v1".to_string();
    b.conflicts.push(BundleConflict { skills: vec!["gen".into(), "ghost".into(), "eval".into()], description: String::new() });
    b.complementarities.push(BundleComplementarity { skills: vec!["other".into()], description: String::new() });
    let r = b.validate();
    assert_eq!(
        r.errors,
        vec![
            "Cascade depth exceeds matroshka limit (8 steps, max 7)".to_string(),
            "Skill 'gen' has 11 lexicon terms (max 10)".to_string(),
            "Skill 'eval' has 25 lexicon terms (max 10)".to_string(),
            "P1 violation: divergent and convergent skills in same Core phase".to_string(),
            "Conflict references skill 'ghost' not found in bundle".to_string(),
            "Conflict must reference exactly 2 skills, found 3".to_string(),
            "Complementarity references skill 'other' not found in bundle".to_string(),
            "Step ordinals not sequential: expected 8, found 9".to_string(),
        ]
    );
    assert_eq!(
        r.warnings,
        vec![
            "Bundle has 36 unique lexicon terms (recommended max 30)".to_string(),
            "Complementarity typically references 2 skills, found 1".to_string(),
            "Version 'v1' does not follow semantic versioning".to_string(),
            "Skill 'gen' has empty content_hash".to_string(),
        ]
    );
}

#[test]
fn too_few_skills_and_repeated_ordinals() {
    let b = bundle(vec![skill("only", SkillPolarity::Procedural, 0, "h")], vec![step(1, "x", CascadePhase::Pre), step(1, "y", CascadePhase::Pre)]);
    let r = b.validate();
    assert_eq!(
        r.errors,
        vec![
            "Bundle must have at least 2 skills, found 1".to_string(),
            "Step ordinals not sequential: expected 2, found 1".to_string(),
        ]
    );
    let empty = ValidationResult::default();
    assert!(empty.is_valid());
    assert!(!empty.has_warnings());
}

#[test]
fn skills_in_phase_finds_skills_named_in_descriptions() {
    let b = bundle(
        vec![skill("gen", SkillPolarity::Generative, 0, "h"), skill("eval", SkillPolarity::Evaluative, 0, "h")],
        vec![step(1, "run gen first", CascadePhase::Pre), step(2, "then eval", CascadePhase::Core), step(3, "nothing", CascadePhase::Pre)],
    );
    let pre: Vec<&str> = b.skills_in_phase(CascadePhase::Pre).iter().map(|s| s.id.as_str()).collect();
    assert_eq!(pre, vec!["gen"]);
    let core: Vec<&str> = b.skills_in_phase(CascadePhase::Core).iter().map(|s| s.id.as_str()).collect();
    assert_eq!(core, vec!["eval"]);
    assert_eq!(b.steps[0].phase_str(), "Pre");
}

#[test]
fn warnings_alone_leave_a_bundle_valid() {
    let mut b = bundle(
        vec![skill("gen", SkillPolarity::Generative, 10, ""), skill("eval", SkillPolarity::Evaluative, 10, "h")],
        vec![step(1, "gen", CascadePhase::Pre), step(2, "eval", CascadePhase::Core)],
    );
    b.version = "1".to_string();
    let r = b.validate();
    assert!(r.is_valid(), "{:?}", r.errors);
    assert_eq!(r.warnings.len(), 2);
    b.version = "1.0".to_string();
    b.skills[0].content_hash = "h0".to_string();
    let r = b.validate();
    assert!(r.is_valid() && !r.has_warnings());
}
