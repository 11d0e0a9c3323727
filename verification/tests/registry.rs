use hkask_templates::bundle::{BundleManifest, BundleSkill, SkillPolarity};
use hkask_templates::ports::TemplateError;
use hkask_templates::bundle_evolver::{Skill, Visibility};
use hkask_templates::lexicon::TemplateType;
use hkask_templates::registry::{validate_template_path, Registry};

fn traversal(r: Result<(), TemplateError>) -> String {
    match r {
        Err(TemplateError::PathTraversal(m)) => m,
        other => panic!("unexpected {other:?}"),
    }
}

#[test]
fn safe_paths_pass() {
    assert!(validate_template_path("wordact/greeting").is_ok());
    assert!(validate_template_path("flowdef/process-v2/").is_ok());
    assert!(validate_template_path("single").is_ok());
}

#[test]
fn unsafe_paths_are_refused() {
    assert_eq!(traversal(validate_template_path("/etc/passwd")), "Absolute path not allowed: /etc/passwd");
    assert_eq!(traversal(validate_template_path("\\windows")), "Absolute path not allowed: \\windows");
    assert_eq!(traversal(validate_template_path("a/../b")), "Path traversal not allowed: a/../b");
    assert_eq!(traversal(validate_template_path("a\0b")), "Null byte not allowed: a\0b");
    assert_eq!(traversal(validate_template_path("")), "Empty path not allowed");
    assert!(validate_template_path("a//\\").is_ok());
}

#[test]
fn long_components_and_non_ascii_are_refused() {
    let long = "x".repeat(65);
    assert_eq!(
        traversal(validate_template_path(&format!("domain/{long}/tail"))),
        format!("Path component exceeds 64 characters: {long}")
    );
    let exactly = "y".repeat(64);
    assert!(validate_template_path(&format!("domain/{exactly}")).is_ok());
    // 33 two-byte characters are 66 bytes: too long before being non-ASCII.
    let wide = "é".repeat(33);
    assert_eq!(
        traversal(validate_template_path(&format!("d/{wide}"))),
        format!("Path component exceeds 64 characters: {wide}")
    );
    assert_eq!(traversal(validate_template_path("domain/café")), "Non-ASCII path not allowed: domain/café");
}

fn skill(id: &str) -> BundleSkill {
    BundleSkill {
        id: id.to_string(),
        polarity: SkillPolarity::Generative,
        lexicon_terms: vec![],
        manifest_ref: format!("{id}.yaml"),
        content_hash: String::new(),
    }
}

fn bundle(id: &str, skills: &[&str]) -> BundleManifest {
    BundleManifest {
        id: id.to_string(),
        name: id.to_string(),
        description: String::new(),
        version: "1.0.0".to_string(),
        editor: String::new(),
        skills: skills.iter().map(|s| skill(s)).collect(),
        conflicts: vec![],
        complementarities: vec![],
        steps: vec![],
        functional_role: None,
        inputs: None,
        principles: None,
    }
}

#[test]
fn bundles_register_get_remove() {
    let mut r = Registry::new();
    assert!(r.get_bundle("a").is_none());
    r.register_bundle(bundle("a", &["s1", "s2"]));
    r.register_bundle(bundle("b", &["s3"]));
    assert_eq!(r.get_bundle("a").unwrap().skills.len(), 2);
    assert_eq!(r.list_bundles().len(), 2);
    // Registering the id again replaces the manifest.
    r.register_bundle(bundle("a", &["s9"]));
    assert_eq!(r.list_bundles().len(), 2);
    assert_eq!(r.get_bundle("a").unwrap().skills[0].id, "s9");
    let gone = r.remove_bundle("a").unwrap();
    assert_eq!(gone.id, "a");
    assert!(r.get_bundle("a").is_none());
    assert!(r.remove_bundle("a").is_none());
    assert_eq!(r.list_bundles().len(), 1);
}

#[test]
fn bundle_found_by_exact_skill_set() {
    let mut r = Registry::new();
    r.register_bundle(bundle("ab", &["a", "b"]));
    r.register_bundle(bundle("abc", &["a", "b", "c"]));
    let ids = |v: &[&str]| v.iter().map(|s| s.to_string()).collect::<Vec<_>>();
    assert_eq!(r.find_bundle_by_skills(&ids(&["b", "a"])).unwrap().id, "ab");
    assert_eq!(r.find_bundle_by_skills(&ids(&["c", "a", "b", "a"])).unwrap().id, "abc");
    assert!(r.find_bundle_by_skills(&ids(&["a"])).is_none());
    assert!(r.find_bundle_by_skills(&ids(&["a", "b", "d"])).is_none());
}

fn reg_skill(id: &str, domain: TemplateType, visibility: Visibility, word_act: Option<&str>) -> Skill {
    Skill {
        id: id.to_string(),
        content_hash: None,
        polarity: None,
        cascade_order: vec![],
        domain,
        visibility,
        word_act: word_act.map(|s| s.to_string()),
        flow_def: None,
        know_act: None,
    }
}

fn sorted_ids(v: Vec<Skill>) -> Vec<String> {
    let mut ids: Vec<String> = v.into_iter().map(|s| s.id).collect();
    ids.sort();
    ids
}

#[test]
fn skills_register_get_remove_and_filter() {
    let mut r = Registry::new();
    r.register_skill(reg_skill("s1", TemplateType::WordAct, Visibility::Public, Some("greet")));
    r.register_skill(reg_skill("s2", TemplateType::FlowDef, Visibility::Private, None));
    r.register_skill(reg_skill("s3", TemplateType::WordAct, Visibility::Private, Some("greet")));
    assert_eq!(r.get_skill("s2").unwrap().domain, TemplateType::FlowDef);
    assert!(r.get_skill("nope").is_none());
    assert_eq!(sorted_ids(r.list_skills()), vec!["s1", "s2", "s3"]);
    assert_eq!(sorted_ids(r.list_skills_by_visibility(Visibility::Private)), vec!["s2", "s3"]);
    assert_eq!(sorted_ids(r.skills_by_domain(TemplateType::WordAct)), vec!["s1", "s3"]);
    assert_eq!(sorted_ids(r.skills_referencing_template("greet")), vec!["s1", "s3"]);
    assert!(r.skills_referencing_template("other").is_empty());
    // Registering an id again replaces the skill.
    r.register_skill(reg_skill("s1", TemplateType::KnowAct, Visibility::Public, None));
    assert_eq!(r.list_skills().len(), 3);
    assert_eq!(r.get_skill("s1").unwrap().domain, TemplateType::KnowAct);
    let gone = r.remove_skill("s1").unwrap();
    assert_eq!(gone.id, "s1");
    assert!(r.remove_skill("s1").is_none());
    assert_eq!(sorted_ids(r.list_skills()), vec!["s2", "s3"]);
    // Skills and bundles are kept apart.
    assert!(r.list_bundles().is_empty());
}
