use hkask_templates::provenance::{ProvenanceManager, TemplateProvenance};

fn change(id: &str, sha: &str) -> TemplateProvenance {
    TemplateProvenance::new(id.to_string(), sha.to_string(), "did:web:alice".to_string(), "main".to_string())
}

#[test]
fn records_are_kept_per_template_in_order() {
    let mut m = ProvenanceManager::new();
    assert!(m.get_history("t1").is_none());
    assert!(m.get_latest("t1").is_none());
    m.record(change("t1", "a1"));
    m.record(change("t2", "b1"));
    m.record(change("t1", "a2").with_commit_message("fix".to_string()));
    let h = m.get_history("t1").unwrap();
    assert_eq!(h.iter().map(|p| p.git_sha.as_str()).collect::<Vec<_>>(), vec!["a1", "a2"]);
    let latest = m.get_latest("t1").unwrap();
    assert_eq!(latest.git_sha, "a2");
    assert_eq!(latest.commit_message.as_deref(), Some("fix"));
    assert_eq!(m.get_latest("t2").unwrap().git_sha, "b1");
    let ids: Vec<&str> = m.get_all_template_ids().into_iter().map(|s| s.as_str()).collect();
    assert_eq!(ids, vec!["t1", "t2"]);
    m.clear();
    assert!(m.get_history("t1").is_none());
    assert!(m.get_all_template_ids().is_empty());
}

#[test]
fn new_record_has_time_and_no_message() {
    let p = change("t", "s");
    assert!(p.modified_at > 0);
    assert!(p.commit_message.is_none());
    assert_eq!((p.template_id.as_str(), p.modified_by.as_str(), p.branch.as_str()), ("t", "did:web:alice", "main"));
}
