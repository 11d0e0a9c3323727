use hkask_templates::curator_pipeline::{
    check_ocap, evaluate_quality, merge_outputs, AuthorityLevel, CurationDecision, EvaluationResult, OcapBoundary,
    TemplateOutcome,
};

fn texts(v: &[Option<&str>]) -> Vec<Option<String>> {
    v.iter().map(|o| o.map(|s| s.to_string())).collect()
}

#[test]
fn no_outputs_are_discarded() {
    let (d, why) = evaluate_quality(&vec![], TemplateOutcome::Success);
    assert_eq!(d, CurationDecision::Discard);
    assert_eq!(why, "No outputs generated");
}

#[test]
fn successful_outputs_are_checked_in_order() {
    let (d, why) = evaluate_quality(&texts(&[Some("fine"), Some("   ")]), TemplateOutcome::Success);
    assert_eq!((d, why.as_str()), (CurationDecision::Revise, "Output is empty"));
    let (d, why) = evaluate_quality(&texts(&[Some("a FAILED run"), Some("")]), TemplateOutcome::Success);
    assert_eq!((d, why.as_str()), (CurationDecision::Discard, "Output contains error markers"));
    let (d, why) = evaluate_quality(&texts(&[Some("ERROR: x")]), TemplateOutcome::Success);
    assert_eq!((d, why.as_str()), (CurationDecision::Discard, "Output contains error markers"));
    let (d, why) = evaluate_quality(&texts(&[Some("one"), None, Some("three")]), TemplateOutcome::Success);
    assert_eq!((d, why.as_str()), (CurationDecision::Merge, "Selected best of 3 outputs (ideological: logical ideas)"));
    let (d, why) = evaluate_quality(&texts(&[None]), TemplateOutcome::Success);
    assert_eq!((d, why.as_str()), (CurationDecision::Merge, "Output is logical and sound"));
}

#[test]
fn other_outcomes_decide_directly() {
    let out = texts(&[Some("ERROR")]);
    assert_eq!(evaluate_quality(&out, TemplateOutcome::Failure), (CurationDecision::Discard, "Template invocation failed".to_string()));
    assert_eq!(evaluate_quality(&out, TemplateOutcome::Merged), (CurationDecision::Merge, "Output already merged by bot".to_string()));
    assert_eq!(evaluate_quality(&out, TemplateOutcome::Discarded), (CurationDecision::Discard, "Output already discarded".to_string()));
}

fn boundary(cap: &str, authority: AuthorityLevel, enforced: bool) -> OcapBoundary {
    OcapBoundary { capability: cap.to_string(), authority, enforced }
}

#[test]
fn ocap_denies_only_enforced_matching_denials() {
    assert!(check_ocap(&vec![], "t1"));
    assert!(!check_ocap(&vec![boundary("t1", AuthorityLevel::Denied, true)], "t1"));
    assert!(check_ocap(&vec![boundary("t1", AuthorityLevel::Denied, false)], "t1"));
    assert!(check_ocap(&vec![boundary("t2", AuthorityLevel::Denied, true)], "t1"));
    assert!(!check_ocap(&vec![boundary("*", AuthorityLevel::Denied, true)], "anything"));
    assert!(check_ocap(
        &vec![boundary("t1", AuthorityLevel::Explicit, true), boundary("*", AuthorityLevel::Implicit, true)],
        "t1"
    ));
}

#[test]
fn outputs_merge_with_separators() {
    assert_eq!(merge_outputs(&vec![]), None);
    assert_eq!(merge_outputs(&texts(&[Some("a"), Some("b")])), Some("a\n\n---\n\nb".to_string()));
    // The separator goes before every text output after the first output.
    assert_eq!(merge_outputs(&texts(&[None, Some("b")])), Some("\n\n---\n\nb".to_string()));
    assert_eq!(merge_outputs(&texts(&[Some("a"), None])), Some("a".to_string()));
    assert_eq!(merge_outputs(&texts(&[None])), Some(String::new()));
}

#[test]
fn evaluation_result_builders() {
    let r = EvaluationResult::new("inv-1".to_string(), CurationDecision::Defer)
        .with_rationale("needs data")
        .with_ocap_check(true)
        .with_variety_impact(-1);
    assert_eq!(r.invocation_id, "inv-1");
    assert_eq!(r.decision, CurationDecision::Defer);
    assert_eq!(r.rationale.as_deref(), Some("needs data"));
    assert!(r.ocap_checked);
    assert_eq!(r.variety_impact, -1);
}
