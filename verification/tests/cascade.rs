use hkask_templates::cascade::{
    default_max_attenuation, default_max_depth, default_max_sub_depth, default_timeout, CapabilityConfig,
    CascadeConfig, CascadeContext, CascadeEngine, CascadeLimits, CascadeStage, CycleDetectionConfig, EnergyConfig,
    ManifestCascadeConfig, TemplateCascadeConfig,
};
use serde_json::Value;

fn stage(name: &str) -> CascadeStage {
    CascadeStage { name: name.to_string(), templates: vec![format!("{name}.j2")], condition: None }
}

fn config(max_depth: u8, energy: u64, pre: &[&str], core: &[&str], post: &[&str]) -> CascadeConfig {
    CascadeConfig {
        cascade_limits: CascadeLimits { max_depth, energy_per_level: energy, timeout_ms: default_timeout() },
        cycle_detection: CycleDetectionConfig { enabled: true, ..Default::default() },
        template_cascade: TemplateCascadeConfig {
            pre: pre.iter().map(|s| stage(s)).collect(),
            core: core.iter().map(|s| stage(s)).collect(),
            post: post.iter().map(|s| stage(s)).collect(),
        },
        manifest_cascade: ManifestCascadeConfig::default(),
        energy: EnergyConfig::default(),
        capabilities: CapabilityConfig::default(),
    }
}

#[test]
fn defaults_follow_the_configuration_file_format() {
    assert_eq!(default_max_depth(), 7);
    assert_eq!(default_timeout(), 10000);
    assert_eq!(default_max_sub_depth(), 5);
    assert_eq!(default_max_attenuation(), 7);
}

#[test]
fn context_recurses_below_the_depth_limit_with_energy() {
    let limits = CascadeLimits { max_depth: 2, energy_per_level: 10, timeout_ms: 1 };
    let mut ctx = CascadeContext::new(2, 10);
    assert!(ctx.can_recurse(&limits));
    ctx.descend("a", Some("m"));
    ctx.descend("a", None);
    assert_eq!(ctx.current_depth, 2);
    assert_eq!(ctx.visited_templates, vec!["a".to_string()]);
    assert_eq!(ctx.visited_manifests, vec!["m".to_string()]);
    assert!(!ctx.can_recurse(&limits));
    let empty = CascadeContext::new(2, 0);
    assert!(!empty.can_recurse(&limits));
}

#[test]
fn cascade_runs_all_phases_in_order() {
    let engine = CascadeEngine::new(config(7, 100, &["p1"], &["c1", "c2"], &["q1"]));
    let input = Value::String("x".to_string());
    let run = engine.execute(input.clone());
    assert_eq!(run.output.unwrap(), input);
    let names: Vec<&str> = run.stages.iter().map(|s| s.name.as_str()).collect();
    assert_eq!(names, vec!["p1", "c1", "c2", "q1"]);
    assert_eq!(run.context.current_depth, 4);
    assert_eq!(run.context.energy_remaining, 100);
}

#[test]
fn cascade_stops_at_the_depth_limit() {
    let engine = CascadeEngine::new(config(2, 100, &["p1"], &["c1", "c2"], &["q1"]));
    let run = engine.execute(Value::Null);
    let names: Vec<&str> = run.stages.iter().map(|s| s.name.as_str()).collect();
    assert_eq!(names, vec!["p1", "c1"]);
    assert_eq!(run.context.current_depth, 2);
}

#[test]
fn cascade_without_energy_runs_nothing() {
    let engine = CascadeEngine::new(config(7, 0, &["p1"], &["c1"], &[]));
    let run = engine.execute(Value::Null);
    assert!(run.stages.is_empty());
    assert_eq!(run.context.current_depth, 0);
    assert!(run.output.is_ok());
}
