use hkask_templates::bundle::{BundleManifestStep, CascadePhase};
use hkask_templates::executor::{
    json_reply_readable, read_json_reply,
    choice_target, evaluate_step_condition, mcp_reference, parse_choice_condition, parse_json_response,
    parse_step_condition, render_inline_template, render_minijinja, render_outcome, render_step_template,
    select_branch, truncate_filter, ChoiceBranch, StepCondition, StepTemplate,
};
use hkask_templates::pdca::{
    advance, cascade_order, close_pass, find_position, pass_spent, start_position, step_kind, CascadeExit,
    CascadeLimits, CascadeMove, CascadePosition, StepEvent, StepKind,
};
use hkask_templates::ports::TemplateError;

fn step(ordinal: u32, action: &str) -> BundleManifestStep {
    BundleManifestStep {
        ordinal,
        action: action.to_string(),
        description: format!("step {ordinal}"),
        renderer: None,
        template_ref: None,
        mcp: None,
        gas_cap: 0,
        timeout_seconds: 30,
        input_mapping: None,
        output_schema: None,
        phase: CascadePhase::Core,
        condition: None,
    }
}

fn manifest_message(e: TemplateError) -> String {
    match e {
        TemplateError::Manifest(m) => m,
        other => panic!("unexpected error {other:?}"),
    }
}

fn names(v: &[&str]) -> Vec<String> {
    v.iter().map(|s| s.to_string()).collect()
}

fn bindings(v: &[(&str, &str)]) -> Vec<(String, String)> {
    v.iter().map(|(k, t)| (k.to_string(), t.to_string())).collect()
}

// ── Choice conditions ──

#[test]
fn choice_condition_splits_threshold() {
    assert_eq!(parse_choice_condition("composite < 0.15"), Some(("composite", "<", "0.15")));
    assert_eq!(parse_choice_condition("  findings == 0 "), Some(("findings", "==", "0")));
    assert_eq!(parse_choice_condition("a<=b"), Some(("a", "<=", "b")));
    assert_eq!(parse_choice_condition("score >= 3"), Some(("score", ">=", "3")));
    assert_eq!(parse_choice_condition("x > 1"), Some(("x", ">", "1")));
}

#[test]
fn choice_condition_needs_both_sides() {
    assert_eq!(parse_choice_condition("default"), None);
    assert_eq!(parse_choice_condition("< 3"), None);
    assert_eq!(parse_choice_condition("x <"), None);
    assert_eq!(parse_choice_condition(""), None);
}

#[test]
fn choice_target_reads_ordinals_and_keywords() {
    assert_eq!(choice_target("3").unwrap(), Some(3));
    assert_eq!(choice_target("continue").unwrap(), None);
    assert_eq!(choice_target("abort").unwrap(), None);
    assert_eq!(choice_target("escalate").unwrap(), None);
    let err = choice_target("x").unwrap_err();
    assert_eq!(manifest_message(err), "Choice action 'x' is not a valid ordinal");
}

#[test]
fn select_branch_takes_first_matching() {
    let branches = vec![
        ChoiceBranch { condition: "composite < 0.15".into(), action: "7".into(), comparison_holds: false },
        ChoiceBranch { condition: "findings == 0".into(), action: "4".into(), comparison_holds: true },
        ChoiceBranch { condition: "default".into(), action: "continue".into(), comparison_holds: false },
    ];
    assert_eq!(select_branch(&branches).unwrap(), Some(4));
}

#[test]
fn select_branch_default_and_none() {
    let branches = vec![
        ChoiceBranch { condition: "x > 1".into(), action: "2".into(), comparison_holds: false },
        ChoiceBranch { condition: "else".into(), action: "continue".into(), comparison_holds: false },
    ];
    assert_eq!(select_branch(&branches).unwrap(), None);
    let none_taken = vec![ChoiceBranch { condition: "x > 1".into(), action: "2".into(), comparison_holds: false }];
    assert_eq!(select_branch(&none_taken).unwrap(), None);
    let bad = vec![ChoiceBranch { condition: "default".into(), action: "later".into(), comparison_holds: false }];
    assert_eq!(manifest_message(select_branch(&bad).unwrap_err()), "Choice action 'later' is not a valid ordinal");
}

// ── Step conditions ──

#[test]
fn step_condition_parse_structure() {
    match parse_step_condition("ready AND NOT step_1_result.blocked") {
        StepCondition::All(l, r) => {
            assert!(matches!(*l, StepCondition::Var(ref v) if v == "ready"));
            match *r {
                StepCondition::Not(x) => assert!(matches!(*x, StepCondition::Var(ref v) if v == "step_1_result.blocked")),
                other => panic!("unexpected {other:?}"),
            }
        }
        other => panic!("unexpected {other:?}"),
    }
    assert!(matches!(parse_step_condition("  a OR b "), StepCondition::Any(_, _)));
    assert!(matches!(parse_step_condition(" flag "), StepCondition::Var(ref v) if v == "flag"));
}

#[test]
fn step_condition_variables_in_order() {
    let c = parse_step_condition("a AND b OR NOT c");
    assert_eq!(c.variables(), names(&["a", "b", "c"]));
}

#[test]
fn step_condition_evaluates_truthiness() {
    let truthy = names(&["ready", "step_1_result.intervention_needed"]);
    assert!(evaluate_step_condition("ready", &truthy));
    assert!(!evaluate_step_condition("missing", &truthy));
    assert!(evaluate_step_condition("NOT missing", &truthy));
    assert!(!evaluate_step_condition("ready AND missing", &truthy));
    assert!(evaluate_step_condition("missing OR ready", &truthy));
    assert!(evaluate_step_condition("ready AND step_1_result.intervention_needed", &truthy));
    // AND splits before OR: "a OR b AND c" reads as "(a OR b) AND c".
    assert!(!evaluate_step_condition("ready OR ready AND missing", &truthy));
}

// ── JSON replies ──

#[test]
fn json_response_plain() {
    let v = parse_json_response("{\"next\": 3}", 1).unwrap();
    assert_eq!(v["next"], 3);
}

#[test]
fn json_response_fenced() {
    let text = "Here you go:\n```json\n{\"memory_type\": \"episodic\"}\n```\nDone.";
    let v = parse_json_response(text, 2).unwrap();
    assert_eq!(v["memory_type"], "episodic");
}

#[test]
fn json_response_braces() {
    let v = parse_json_response("The answer is {\"ok\": true} as shown.", 3).unwrap();
    assert_eq!(v["ok"], true);
}

#[test]
fn json_response_none_found() {
    let err = parse_json_response("no structure here", 4).unwrap_err();
    assert_eq!(manifest_message(err), "Step 4: No JSON found in inference response");
}

#[test]
fn json_response_bad_candidate() {
    let err = parse_json_response("bad {not json} end", 5).unwrap_err();
    assert!(manifest_message(err).starts_with("Step 5: Failed to parse JSON response: "));
}

// ── Templates ──

#[test]
fn inline_template_substitutes_in_order() {
    let b = bindings(&[("name", "world"), ("greeting", "hello")]);
    assert_eq!(render_inline_template("{{greeting}}, {{name}}! {{name}}", &b), "hello, world! world");
    assert_eq!(render_inline_template("no placeholders", &b), "no placeholders");
    assert_eq!(render_inline_template("{{unknown}}", &b), "{{unknown}}");
    // A later binding sees the text of an earlier one.
    let chained = bindings(&[("a", "{{b}}"), ("b", "x")]);
    assert_eq!(render_inline_template("{{a}}", &chained), "x");
}

#[test]
fn truncate_filter_cuts_long_values() {
    assert_eq!(truncate_filter("short".to_string(), 10), "short");
    assert_eq!(truncate_filter("abcdefghij".to_string(), 4), "abcd...");
    // Four bytes but two characters: over the byte limit, so the marker is added.
    assert_eq!(truncate_filter("éé".to_string(), 3), "éé...");
}

#[test]
fn minijinja_renders_context() {
    let ctx: serde_json::Value = serde_json::from_str(r#"{"items": ["a", "b"], "name": "x"}"#).unwrap();
    let out = render_minijinja("{{ name }}:{% for i in items %}{{ i }}{% endfor %}", &ctx).unwrap();
    assert_eq!(out, "x:ab");
    let lenient = render_minijinja("[{{ missing }}]", &ctx).unwrap();
    assert_eq!(lenient, "[]");
    let cut = render_minijinja("{{ name | truncate(0) }}", &serde_json::from_str::<serde_json::Value>(r#"{"name": "abc"}"#).unwrap()).unwrap();
    assert_eq!(cut, "...");
}

#[test]
fn minijinja_reports_invalid_template() {
    match render_minijinja("{% for %}", &serde_json::Value::Object(serde_json::Map::new())) {
        Err(TemplateError::Render(m)) => assert!(m.starts_with("Invalid template: ")),
        other => panic!("unexpected {other:?}"),
    }
}

#[test]
fn render_outcome_messages() {
    assert_eq!(render_outcome(Ok("t".to_string())).unwrap(), "t");
    match render_outcome(Err((true, "bad".to_string()))) {
        Err(TemplateError::Render(m)) => assert_eq!(m, "Invalid template: bad"),
        other => panic!("unexpected {other:?}"),
    }
    match render_outcome(Err((false, "boom".to_string()))) {
        Err(TemplateError::Render(m)) => assert_eq!(m, "Template render error: boom"),
        other => panic!("unexpected {other:?}"),
    }
}

#[test]
fn step_template_modes() {
    let b = bindings(&[("kind", "curator")]);
    let mut jinja = step(2, "populate");
    jinja.renderer = Some("minijinja".into());
    jinja.template_ref = Some("{{kind}}/state.j2".into());
    assert!(matches!(render_step_template(&jinja, &b).unwrap(), StepTemplate::Jinja(p) if p == "curator/state.j2"));
    jinja.template_ref = None;
    assert_eq!(
        manifest_message(render_step_template(&jinja, &b).unwrap_err()),
        "Step 2 has renderer='minijinja' but no template_ref"
    );
    let mut inline = step(3, "populate");
    inline.renderer = Some("Hello {{kind}}".into());
    assert!(matches!(render_step_template(&inline, &b).unwrap(), StepTemplate::Rendered(t) if t == "Hello curator"));
    inline.template_ref = Some("Ref {{kind}}".into());
    assert!(matches!(render_step_template(&inline, &b).unwrap(), StepTemplate::Rendered(t) if t == "Ref curator"));
    let bare = step(4, "populate");
    assert_eq!(manifest_message(render_step_template(&bare, &b).unwrap_err()), "Step 4 has no template_ref or renderer");
}

#[test]
fn mcp_reference_is_substituted() {
    let b = bindings(&[("server", "memory")]);
    let mut s = step(5, "execute");
    s.mcp = Some("{{server}}/recall".into());
    assert_eq!(mcp_reference(&s, &b).unwrap(), "memory/recall");
    s.mcp = None;
    assert_eq!(manifest_message(mcp_reference(&s, &b).unwrap_err()), "Execute step 5 has no mcp reference");
}

// ── The cascade loop ──

fn limits(max: u32, min: u32, cap: u64, cost: u64, hard: bool, depth: u8) -> CascadeLimits {
    CascadeLimits::new(max, min, cap, cost, hard, depth)
}

fn at(iteration: u32, step: usize, depth: u8, gas_used: u64) -> CascadePosition {
    CascadePosition { iteration, step, depth, gas_used }
}

#[test]
fn cascade_order_is_stable_by_ordinal() {
    let steps = vec![step(3, "a"), step(1, "b"), step(3, "c"), step(2, "d"), step(1, "e")];
    assert_eq!(cascade_order(&steps), vec![1, 4, 3, 0, 2]);
    assert_eq!(cascade_order(&Vec::<BundleManifestStep>::new()), Vec::<usize>::new());
}

#[test]
fn find_position_takes_first() {
    let ordinals = vec![1, 2, 2, 5];
    assert_eq!(find_position(&ordinals, 2), Some(1));
    assert_eq!(find_position(&ordinals, 5), Some(3));
    assert_eq!(find_position(&ordinals, 9), None);
}

#[test]
fn step_kinds_by_action() {
    assert_eq!(step_kind("abort"), StepKind::Abort);
    assert_eq!(step_kind("escalate"), StepKind::Escalate);
    assert_eq!(step_kind("choice"), StepKind::Choice);
    assert_eq!(step_kind("loop"), StepKind::Loop);
    assert_eq!(step_kind("select"), StepKind::Select);
    assert_eq!(step_kind("populate"), StepKind::Populate);
    for a in ["execute", "feedback", "validate", "retrieve"] {
        assert_eq!(step_kind(a), StepKind::Invoke);
    }
    assert_eq!(step_kind("dance"), StepKind::Unknown);
}

#[test]
fn limits_single_pass_when_zero() {
    assert_eq!(limits(0, 0, 0, 0, false, 7).max_iterations, 1);
    assert_eq!(limits(5, 0, 0, 0, false, 7).max_iterations, 5);
    assert_eq!(limits(1, 0, 10, 4, true, 7).charged(3), 7);
    assert_eq!(limits(1, 0, 10, 4, true, 7).charged(u64::MAX - 1), u64::MAX);
}

#[test]
fn advance_plain_steps() {
    let lim = limits(3, 0, 100, 10, true, 7);
    let ordinals = vec![1, 2, 3];
    let p = start_position();
    assert_eq!(p, at(1, 0, 0, 0));
    assert!(matches!(advance(p, &lim, &ordinals, &step(1, "populate"), StepEvent::Ran), CascadeMove::Continue(q) if q == at(1, 1, 0, 0)));
    assert!(matches!(advance(p, &lim, &ordinals, &step(1, "abort"), StepEvent::Skipped), CascadeMove::Continue(q) if q == at(1, 1, 0, 0)));
    assert!(matches!(advance(p, &lim, &ordinals, &step(1, "abort"), StepEvent::Ran), CascadeMove::Finish(CascadeExit::Converged, q) if q == p));
    match advance(p, &lim, &ordinals, &step(2, "escalate"), StepEvent::Ran) {
        CascadeMove::Fail(CascadeExit::Escalated, e) => assert_eq!(manifest_message(e), "Cascade escalated at step 2: step 2"),
        other => panic!("unexpected {other:?}"),
    }
    match advance(p, &lim, &ordinals, &step(2, "dance"), StepEvent::Ran) {
        CascadeMove::Stop(e) => assert_eq!(manifest_message(e), "Unknown manifest step action: 'dance'"),
        other => panic!("unexpected {other:?}"),
    }
}

#[test]
fn advance_choice_jumps() {
    let lim = limits(3, 0, 0, 0, false, 7);
    let ordinals = vec![1, 2, 3];
    let p = at(1, 2, 0, 0);
    assert!(matches!(advance(p, &lim, &ordinals, &step(3, "choice"), StepEvent::Chose(Some(1))), CascadeMove::Continue(q) if q == at(1, 0, 0, 0)));
    assert!(matches!(advance(p, &lim, &ordinals, &step(3, "choice"), StepEvent::Chose(Some(9))), CascadeMove::Continue(q) if q == at(1, 3, 0, 0)));
    assert!(matches!(advance(p, &lim, &ordinals, &step(3, "choice"), StepEvent::Chose(None)), CascadeMove::Continue(q) if q == at(1, 3, 0, 0)));
}

#[test]
fn advance_select_spends_gas() {
    let lim = limits(3, 0, 25, 10, true, 7);
    let ordinals = vec![1, 2];
    assert!(matches!(advance(at(1, 0, 0, 10), &lim, &ordinals, &step(1, "select"), StepEvent::Ran), CascadeMove::Continue(q) if q == at(1, 1, 0, 20)));
    assert!(matches!(advance(at(1, 0, 0, 20), &lim, &ordinals, &step(1, "select"), StepEvent::Ran), CascadeMove::Finish(CascadeExit::MaxedOut, q) if q == at(1, 0, 0, 30)));
    let soft = limits(3, 0, 25, 10, false, 7);
    assert!(matches!(advance(at(1, 0, 0, 20), &soft, &ordinals, &step(1, "select"), StepEvent::Ran), CascadeMove::Continue(q) if q == at(1, 1, 0, 30)));
}

#[test]
fn advance_loop_rules() {
    let ordinals = vec![0, 1, 2];
    let lp = step(2, "loop");
    let lim = limits(3, 1, 0, 0, false, 2);
    // Re-enter at the target while passes remain and quality is not met.
    assert!(matches!(advance(at(1, 2, 0, 0), &lim, &ordinals, &lp, StepEvent::Looped { target: 1, quality_met: false }), CascadeMove::Continue(q) if q == at(1, 1, 1, 0)));
    // An unknown target restarts from the first step.
    assert!(matches!(advance(at(1, 2, 0, 0), &lim, &ordinals, &lp, StepEvent::Looped { target: 9, quality_met: false }), CascadeMove::Continue(q) if q == at(1, 0, 1, 0)));
    // Quality counts only after the minimum number of passes.
    assert!(matches!(advance(at(1, 2, 0, 0), &lim, &ordinals, &lp, StepEvent::Looped { target: 0, quality_met: true }), CascadeMove::Continue(_)));
    assert!(matches!(advance(at(2, 2, 0, 0), &lim, &ordinals, &lp, StepEvent::Looped { target: 0, quality_met: true }), CascadeMove::Finish(CascadeExit::Converged, q) if q == at(2, 2, 1, 0)));
    // The last pass ends the run.
    assert!(matches!(advance(at(3, 2, 0, 0), &lim, &ordinals, &lp, StepEvent::Looped { target: 0, quality_met: false }), CascadeMove::Finish(CascadeExit::MaxedOut, q) if q == at(3, 2, 1, 0)));
    // The nesting limit fails the run.
    match advance(at(2, 2, 2, 0), &lim, &ordinals, &lp, StepEvent::Looped { target: 0, quality_met: false }) {
        CascadeMove::Fail(CascadeExit::MaxedOut, e) => assert_eq!(manifest_message(e), "Matryoshka depth limit (2) exceeded at iteration 2"),
        other => panic!("unexpected {other:?}"),
    }
}

#[test]
fn close_pass_rules() {
    let lim = limits(3, 0, 50, 10, true, 7);
    assert!(!pass_spent(at(1, 2, 0, 40), &lim));
    assert!(pass_spent(at(1, 2, 0, 50), &lim));
    assert!(matches!(close_pass(at(1, 2, 0, 50), &lim, false), CascadeMove::Finish(CascadeExit::MaxedOut, _)));
    assert!(matches!(close_pass(at(1, 2, 0, 0), &lim, true), CascadeMove::Finish(CascadeExit::Converged, _)));
    assert!(matches!(close_pass(at(1, 2, 0, 0), &lim, false), CascadeMove::Continue(q) if q == at(2, 0, 1, 0)));
    assert!(matches!(close_pass(at(3, 2, 0, 0), &lim, true), CascadeMove::Finish(CascadeExit::MaxedOut, _)));
    let shallow = limits(3, 0, 0, 0, false, 0);
    match close_pass(at(1, 2, 0, 0), &shallow, false) {
        CascadeMove::Fail(CascadeExit::MaxedOut, e) => assert_eq!(manifest_message(e), "Matryoshka depth limit (0) exceeded at iteration 1"),
        other => panic!("unexpected {other:?}"),
    }
}

#[test]
fn exit_status_and_reason() {
    assert_eq!((CascadeExit::Converged.status(), CascadeExit::Converged.reason()), ("converged", "quality_met"));
    assert_eq!((CascadeExit::Escalated.status(), CascadeExit::Escalated.reason()), ("escalated", "obstacle_blocked"));
    assert_eq!((CascadeExit::MaxedOut.status(), CascadeExit::MaxedOut.reason()), ("maxed_out", "energy_spent"));
}

#[test]
fn single_pass_run_to_completion() {
    // Drives a whole run the way the executor does: one pass of three steps.
    let steps = vec![step(2, "populate"), step(1, "select"), step(3, "execute")];
    let order = cascade_order(&steps);
    let ordinals: Vec<u32> = order.iter().map(|&i| steps[i].ordinal).collect();
    let lim = limits(0, 0, 100, 10, true, 7);
    let mut p = start_position();
    let end = loop {
        if p.step >= ordinals.len() {
            match close_pass(p, &lim, false) {
                CascadeMove::Continue(q) => p = q,
                other => break other,
            }
            continue;
        }
        match advance(p, &lim, &ordinals, &steps[order[p.step]], StepEvent::Ran) {
            CascadeMove::Continue(q) => p = q,
            other => break other,
        }
    };
    assert!(matches!(end, CascadeMove::Finish(CascadeExit::MaxedOut, q) if q == at(1, 3, 0, 10)));
}

#[test]
fn replies_with_braces_out_of_order_are_not_read() {
    // An empty window between the braces is read, and fails to parse.
    assert!(json_reply_readable("}{"));
    assert!(matches!(read_json_reply("}{", 6), Some(Err(_))));
    // A `{` two places past the last `}` leaves no window.
    assert!(!json_reply_readable("} {"));
    assert!(read_json_reply("} {", 6).is_none());
    assert_eq!(read_json_reply("{\"a\": 1}", 6).unwrap().unwrap()["a"], 1);
    assert!(json_reply_readable("```json\n} {\n```"));
}
