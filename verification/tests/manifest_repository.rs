use hkask_templates::manifest_repository::{
    manifest_file_name, Action, FileSystemManifestRepository, InMemoryManifestRepository, ManifestStep, ProcessManifest,
};
use hkask_templates::ports::TemplateError;
use std::path::PathBuf;

fn manifest(id: &str, name: &str) -> ProcessManifest {
    ProcessManifest { id: id.to_string(), name: name.to_string(), description: name.to_string(), steps: vec![] }
}

#[test]
fn test_in_memory_repository() {
    let manifest1 = manifest("test", "Test");

    let mut repo = InMemoryManifestRepository::with_manifests(vec![manifest("test", "Test")]);

    // Load
    let loaded = repo.load("test").unwrap();
    assert_eq!(loaded.id, manifest1.id);

    // Save new
    let manifest2 = manifest("test2", "Test2");
    repo.save(&manifest2).unwrap();

    // List
    let list = repo.list().unwrap();
    assert_eq!(list.len(), 2);
    assert!(list.contains(&"test".to_string()));
    assert!(list.contains(&"test2".to_string()));

    // Delete
    repo.delete("test").unwrap();
    assert!(matches!(repo.load("test"), Err(TemplateError::NotFound(_))));
}

#[test]
fn test_manifest_path_sanitization() {
    let repo = FileSystemManifestRepository::new("/var/lib/hkask/manifests");

    // Path traversal attempt should be sanitized
    let path = repo.manifest_path("../../../etc/passwd");
    assert!(!path.to_string_lossy().contains(".."));
    assert!(path.to_string_lossy().contains("_"));
    assert_eq!(path, PathBuf::from("/var/lib/hkask/manifests").join("______etc_passwd.yaml"));
}

#[test]
fn file_names_keep_ids_inside_the_store() {
    assert_eq!(manifest_file_name("plain-id"), "plain-id.yaml");
    assert_eq!(manifest_file_name("a/b\\c"), "a_b_c.yaml");
    assert_eq!(manifest_file_name("../../x"), "____x.yaml");
    assert_eq!(manifest_file_name("a...b"), "a_.b.yaml");
    let repo = FileSystemManifestRepository::with_default_path();
    assert_eq!(repo.manifest_path("m"), PathBuf::from("registry/manifests/m.yaml"));
    let limited = FileSystemManifestRepository::with_rate_limit("d", 2, 0);
    assert_eq!(limited.base_path(), &PathBuf::from("d"));
}

#[test]
fn saving_replaces_and_loading_gives_back_what_was_saved() {
    let mut repo = InMemoryManifestRepository::new();
    let mut m = manifest("m", "First");
    m.steps.push(ManifestStep {
        ordinal: 1,
        action: Action::Select,
        description: "Select template".to_string(),
        template_ref: "prompt/selector".to_string(),
        model_tier: Some("fast_local".to_string()),
        mcp: None,
        renderer: Some("minijinja".to_string()),
    });
    repo.save(&m).unwrap();
    repo.save(&manifest("m", "Second")).unwrap();
    let loaded = repo.load("m").unwrap();
    assert_eq!(loaded.name, "Second");
    assert!(loaded.steps.is_empty());
    assert_eq!(repo.list().unwrap(), vec!["m".to_string()]);
    match repo.delete("nope") {
        Err(TemplateError::NotFound(msg)) => assert_eq!(msg, "Manifest nope"),
        other => panic!("unexpected {other:?}"),
    }
    let later = InMemoryManifestRepository::with_manifests(vec![manifest("x", "one"), manifest("x", "two")]);
    assert_eq!(later.load("x").unwrap().name, "two");
}
