use hkask_templates::audit::{AuditTrail, ExecutionAudit};

fn audit(bot: &str, template: &str, ms: u64) -> ExecutionAudit {
    ExecutionAudit::new(bot.to_string(), template.to_string(), ExecutionAudit::hash_input(template), 1).with_duration_ms(ms)
}

#[test]
fn input_hash_is_lower_case_sha256() {
    assert_eq!(
        ExecutionAudit::hash_input(""),
        "e3b0c44298fc1c149afbf4c8996fb92427ae41e4649b934ca495991b7852b855"
    );
    assert_eq!(
        ExecutionAudit::hash_input("abc"),
        "ba7816bf8f01cfea414140de5dae2223b00361a396177a9cb410ff61f20015ad"
    );
}

#[test]
fn trail_keeps_only_the_most_recent_records() {
    let mut trail = AuditTrail::new(2);
    trail.record(audit("b1", "t1", 10));
    trail.record(audit("b2", "t2", 20));
    trail.record(audit("b1", "t3", 30));
    assert_eq!(trail.count(), 2);
    let templates: Vec<&str> = trail.get_all().iter().map(|a| a.template_id.as_str()).collect();
    assert_eq!(templates, vec!["t2", "t3"]);
}

#[test]
fn zero_capacity_keeps_nothing() {
    let mut trail = AuditTrail::new(0);
    trail.record(audit("b", "t", 1));
    assert_eq!(trail.count(), 0);
}

#[test]
fn queries_filter_by_bot_template_failure_and_id() {
    let mut trail = AuditTrail::default();
    let failed = audit("b1", "t2", 5).with_error("boom".to_string());
    let failed_id = failed.id;
    trail.record(audit("b1", "t1", 10));
    trail.record(audit("b2", "t1", 20));
    trail.record(failed);
    assert_eq!(trail.get_by_bot("b1").len(), 2);
    assert_eq!(trail.get_by_template("t1").len(), 2);
    let failures = trail.get_failures();
    assert_eq!(failures.len(), 1);
    assert_eq!(failures[0].error_message.as_deref(), Some("boom"));
    assert_eq!(trail.get_by_id(&failed_id).unwrap().template_id, "t2");
    assert!(trail.get_by_id(&uuid::Uuid::nil()).is_none());
    let stats = trail.get_stats();
    assert_eq!((stats.total, stats.successes, stats.failures, stats.avg_duration), (3, 2, 1, 11));
    trail.clear();
    assert_eq!(trail.count(), 0);
    assert_eq!(trail.get_stats().avg_duration, 0);
}
