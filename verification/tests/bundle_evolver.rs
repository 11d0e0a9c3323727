use hkask_templates::bundle::{BundleManifest, BundleSkill, SkillPolarity};
use hkask_templates::bundle_evolver::{BundleEvolver, BundleSkillChange, Skill, VersionBump, Visibility};
use hkask_templates::lexicon::TemplateType;

fn make_skill(id: &str, hash: &str) -> Skill {
    Skill {
        id: id.to_string(),
        content_hash: Some(hash.to_string()),
        polarity: None,
        cascade_order: vec![],
        domain: TemplateType::FlowDef,
        visibility: Visibility::Private,
        word_act: None,
        flow_def: None,
        know_act: None,
    }
}

fn make_minimal_bundle(skills: Vec<BundleSkill>) -> BundleManifest {
    BundleManifest {
        id: "test-bundle".to_string(),
        name: "Test Bundle".to_string(),
        description: "A test bundle".to_string(),
        version: "1.0.0".to_string(),
        editor: "curator-or-human-admin".to_string(),
        skills,
        conflicts: vec![],
        complementarities: vec![],
        steps: vec![],
        functional_role: None,
        inputs: None,
        principles: None,
    }
}

fn bundle_skill(id: &str, polarity: SkillPolarity, hash: &str) -> BundleSkill {
    BundleSkill {
        id: id.to_string(),
        polarity,
        lexicon_terms: vec!["create".to_string()],
        manifest_ref: format!("manifest-{id}"),
        content_hash: hash.to_string(),
    }
}

#[test]
fn evolver_detects_hash_changes() {
    let mut evolver = BundleEvolver::new();
    let bundle = make_minimal_bundle(vec![bundle_skill("skill-a", SkillPolarity::Generative, "abc123")]);
    evolver.register_bundle(&bundle);

    let current_skill_a = make_skill("skill-a", "def456");
    let changes = evolver.detect_skill_changes(&bundle, &vec![current_skill_a]);
    assert_eq!(changes.len(), 1);
    assert_eq!(changes[0].previous_hash, "abc123");
    assert_eq!(changes[0].current_hash, "def456");
}

#[test]
fn evolver_no_changes_when_hashes_match() {
    let mut evolver = BundleEvolver::new();
    let bundle = make_minimal_bundle(vec![bundle_skill("skill-a", SkillPolarity::Generative, "abc123")]);
    evolver.register_bundle(&bundle);

    let current_skill = make_skill("skill-a", "abc123");
    let changes = evolver.detect_skill_changes(&bundle, &vec![current_skill]);
    assert!(changes.is_empty());
}

#[test]
fn version_bump_major_for_polarity_change() {
    let evolver = BundleEvolver::new();
    let bundle = make_minimal_bundle(vec![bundle_skill("skill-a", SkillPolarity::Generative, "abc")]);
    let changes = vec![BundleSkillChange {
        skill_id: "skill-a".to_string(),
        previous_hash: "abc".to_string(),
        current_hash: "def".to_string(),
        polarity_changed: true,
    }];
    let bump = evolver.determine_version_bump(&bundle, &changes);
    assert_eq!(bump, VersionBump::Major);
}

#[test]
fn version_bump_minor_for_content_change() {
    let evolver = BundleEvolver::new();
    let bundle = make_minimal_bundle(vec![bundle_skill("skill-a", SkillPolarity::Generative, "abc")]);
    let changes = vec![BundleSkillChange {
        skill_id: "skill-a".to_string(),
        previous_hash: "abc".to_string(),
        current_hash: "def".to_string(),
        polarity_changed: false,
    }];
    let bump = evolver.determine_version_bump(&bundle, &changes);
    assert_eq!(bump, VersionBump::Minor);
    assert_eq!(evolver.determine_version_bump(&bundle, &vec![]), VersionBump::Patch);
}

#[test]
fn dependency_index_tracks_skills_to_bundles() {
    let mut evolver = BundleEvolver::new();
    let bundle = make_minimal_bundle(vec![bundle_skill("coding-guidelines", SkillPolarity::Regulative, "hash1")]);
    evolver.register_bundle(&bundle);

    let deps = evolver.bundles_needing_evolution(&vec![BundleSkillChange {
        skill_id: "coding-guidelines".to_string(),
        previous_hash: "hash1".to_string(),
        current_hash: "hash2".to_string(),
        polarity_changed: false,
    }]);
    assert!(deps.contains(&"test-bundle".to_string()));
    evolver.remove_bundle(&bundle);
    let none = evolver.bundles_needing_evolution(&vec![BundleSkillChange {
        skill_id: "coding-guidelines".to_string(),
        previous_hash: "hash1".to_string(),
        current_hash: "hash2".to_string(),
        polarity_changed: false,
    }]);
    assert!(none.is_empty());
}

#[test]
fn evolution_context_splits_evolved_and_unchanged_skills() {
    let evolver = BundleEvolver::default();
    let bundle = make_minimal_bundle(vec![
        bundle_skill("a", SkillPolarity::Generative, "h1"),
        bundle_skill("b", SkillPolarity::Evaluative, "h2"),
        bundle_skill("c", SkillPolarity::Procedural, "h3"),
    ]);
    let mut a_now = make_skill("a", "h1-new");
    a_now.polarity = Some(SkillPolarity::Regulative);
    a_now.cascade_order = vec!["x".to_string()];
    let b_now = make_skill("b", "h2");
    let c_now = Skill { content_hash: None, ..make_skill("c", "") };
    let ctx = evolver.prepare_evolution_context(&bundle, &vec![a_now, b_now, c_now]);
    assert_eq!(ctx.bundle_id, "test-bundle");
    assert_eq!(ctx.changes.len(), 1);
    assert!(ctx.changes[0].polarity_changed);
    assert_eq!(ctx.version_bump, VersionBump::Major);
    assert_eq!(ctx.evolved_skills.len(), 1);
    let e = &ctx.evolved_skills[0];
    assert_eq!(e.id, "a");
    assert_eq!(e.polarity, SkillPolarity::Regulative);
    assert_eq!(e.lexicon_terms, vec!["x".to_string()]);
    assert_eq!((e.previous_hash.as_str(), e.current_hash.as_str()), ("h1", "h1-new"));
    assert_eq!(e.change_summary, "Polarity changed — full re-analysis required");
    let unchanged: Vec<&str> = ctx.unchanged_skills.iter().map(|u| u.id.as_str()).collect();
    assert_eq!(unchanged, vec!["b", "c"]);
}
