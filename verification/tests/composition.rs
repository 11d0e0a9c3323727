use hkask_templates::composition::{CompositionError, CompositionExecutor, PipelineConfig, 
    CompositionContext, CompositionGraph, CompositionStage, InMemoryDependencyProvider, RetryConfig,
};
use serde_json::Value;

fn text(s: &str) -> Value {
    Value::String(s.to_string())
}

#[test]
fn test_composition_stage_builder() {
    let stage = CompositionStage::new("test")
        .with_description("Test stage")
        .with_energy_cap(500)
        .with_timeout(5000)
        .with_dependencies(vec!["dep1", "dep2"]);

    assert_eq!(stage.name, "test");
    assert_eq!(stage.description, "Test stage");
    assert_eq!(stage.energy_cap, 500);
    assert_eq!(stage.timeout_ms, 5000);
    assert_eq!(stage.dependencies.len(), 2);
}

#[test]
fn test_composition_context_depth() {
    let context = CompositionContext::new(Value::Null).with_depth(8);
    assert!(context.check_depth(7).is_err());

    let context = CompositionContext::new(Value::Null).with_depth(6);
    assert!(context.check_depth(7).is_ok());
}

#[test]
fn test_composition_context_cycle() {
    let mut context = CompositionContext::new(Value::Null);
    context.visit("node-1");

    assert!(context.check_cycle("node-1").is_err());
    assert!(context.check_cycle("node-2").is_ok());
}

#[test]
fn test_composition_context_energy() {
    let mut context = CompositionContext::new(Value::Null).with_energy(1000);
    assert!(context.check_energy(500).is_ok());
    assert!(context.check_energy(1500).is_err());

    context.consume_energy(500);
    assert_eq!(context.energy_remaining, 500);
}

#[test]
fn test_composition_context_child() {
    let context = CompositionContext::new(Value::Null).with_depth(3);
    let child = context.child();

    assert_eq!(child.current_depth, 4);
    assert_eq!(child.energy_remaining, context.energy_remaining);
}

#[test]
fn test_dependency_provider() {
    let mut provider = InMemoryDependencyProvider::new();
    provider.register("key1", text("value1"));
    provider.register("key2", text("value2"));

    assert_eq!(provider.get_dependency("key1"), Some(text("value1")));
    assert_eq!(provider.get_dependency("key2"), Some(text("value2")));
    assert_eq!(provider.get_dependency("key3"), None);

    let deps = provider.list_dependencies();
    assert_eq!(deps.len(), 2);
}

#[test]
fn test_dependency_provider_builder() {
    let provider = InMemoryDependencyProvider::new()
        .with_dependency("key1", text("value1"))
        .with_dependency("key2", text("value2"));

    assert_eq!(provider.get_dependency("key1"), Some(text("value1")));
    assert_eq!(provider.get_dependency("key2"), Some(text("value2")));
}

#[test]
fn test_composition_graph_no_cycle() {
    let mut graph = CompositionGraph::new();
    graph.add_node("a");
    graph.add_node("b");
    graph.add_node("c");
    graph.add_edge("a", "b");
    graph.add_edge("b", "c");

    assert!(!graph.has_cycle());

    let sorted = graph.topological_sort();
    assert!(sorted.is_some());
    let sorted = sorted.unwrap();
    assert_eq!(sorted.len(), 3);
}

#[test]
fn test_composition_graph_with_cycle() {
    let mut graph = CompositionGraph::new();
    graph.add_node("a");
    graph.add_node("b");
    graph.add_node("c");
    graph.add_edge("a", "b");
    graph.add_edge("b", "c");
    graph.add_edge("c", "a"); // Cycle!

    assert!(graph.has_cycle());
    assert!(graph.topological_sort().is_none());
}

#[test]
fn topological_order_puts_every_node_before_its_dependencies() {
    let mut graph = CompositionGraph::new();
    graph.add_edge("c", "d");
    graph.add_edge("a", "b");
    graph.add_edge("b", "d");
    graph.add_edge("a", "c");
    graph.add_node("e");
    let order = graph.topological_sort().unwrap();
    assert_eq!(order.len(), 5);
    let pos = |n: &str| order.iter().position(|x| x == n).unwrap();
    assert!(pos("a") < pos("b"));
    assert!(pos("a") < pos("c"));
    assert!(pos("b") < pos("d"));
    assert!(pos("c") < pos("d"));
    assert!(order.iter().any(|x| x == "e"));
}

#[test]
fn self_loop_is_a_cycle() {
    let mut graph = CompositionGraph::new();
    graph.add_edge("a", "a");
    assert!(graph.has_cycle());
    assert!(graph.topological_sort().is_none());
}

#[test]
fn empty_graph_sorts_to_nothing() {
    let graph = CompositionGraph::new();
    assert!(!graph.has_cycle());
    assert_eq!(graph.topological_sort(), Some(Vec::new()));
}

#[test]
fn dependencies_of_lists_targets_in_edge_order() {
    let mut graph = CompositionGraph::new();
    graph.add_edge("a", "c");
    graph.add_edge("b", "x");
    graph.add_edge("a", "b");
    graph.add_edge("a", "c");
    assert_eq!(graph.dependencies_of("a"), vec!["c", "b", "c"]);
    assert!(graph.dependencies_of("zzz").is_empty());
}

#[test]
fn registering_again_replaces_the_value() {
    let mut provider = InMemoryDependencyProvider::new();
    provider.register("k", text("one"));
    provider.register("k", text("two"));
    assert_eq!(provider.get_dependency("k"), Some(text("two")));
    assert_eq!(provider.list_dependencies(), vec!["k"]);
}

#[test]
fn check_errors_carry_their_messages() {
    let mut context = CompositionContext::new(Value::Null).with_energy(10);
    context.visit("n");
    match context.check_cycle("n") {
        Err(e) => assert_eq!(e.message(), "Validation error: Cycle detected: 'n' already visited"),
        Ok(()) => panic!("expected a cycle"),
    }
    match context.check_energy(25) {
        Err(e) => assert_eq!(e.message(), "Manifest error: Energy budget exceeded: requested 25, remaining 10"),
        Ok(()) => panic!("expected an energy error"),
    }
    context.consume_energy(99);
    assert_eq!(context.energy_remaining, 0);
}

#[test]
fn backoff_doubles_and_is_capped() {
    let retry = RetryConfig::new(3, 1000, 30000);
    assert_eq!(retry.backoff_delay(0), 1000);
    assert_eq!(retry.backoff_delay(1), 2000);
    assert_eq!(retry.backoff_delay(3), 8000);
    assert_eq!(retry.backoff_delay(5), 30000);
    assert!(retry.should_retry(2));
    assert!(!retry.should_retry(3));
}

#[test]
fn test_pipeline_config_validation() {
    let stages = vec![
        CompositionStage::new("stage1").with_dependencies(vec!["stage2"]),
        CompositionStage::new("stage2"),
    ];

    let config = PipelineConfig::new(stages);
    assert!(config.validate().is_ok());
}

#[test]
fn test_pipeline_config_validation_with_cycle() {
    let stages = vec![
        CompositionStage::new("stage1").with_dependencies(vec!["stage2"]),
        CompositionStage::new("stage2").with_dependencies(vec!["stage1"]), // Cycle!
    ];

    let config = PipelineConfig::new(stages);
    assert!(config.validate().is_err());
}

#[test]
fn test_composition_executor_new() {
    let stages = vec![CompositionStage::new("test")];
    let config = PipelineConfig::new(stages);
    let executor = CompositionExecutor::new(config);

    // Executor created successfully
    let _ = executor;
}

#[test]
fn test_composition_executor_execute() {
    let stages = vec![CompositionStage::new("stage1"), CompositionStage::new("stage2")];
    let config = PipelineConfig::new(stages);
    let executor = CompositionExecutor::new(config);

    let input: serde_json::Value = serde_json::from_str(r#"{"input": "test"}"#).unwrap();
    let result = executor.execute(input);
    assert!(result.is_ok());
}

#[test]
fn pipeline_runs_stages_in_order_and_pays_energy() {
    let stages = vec![CompositionStage::new("a").with_energy_cap(600), CompositionStage::new("b").with_energy_cap(400)];
    let out = CompositionExecutor::new(PipelineConfig::new(stages)).execute(serde_json::Value::from(1)).unwrap();
    assert_eq!(out["stage"], "b");
    assert_eq!(out["status"], "executed");
    assert_eq!(out["input"]["stage"], "a");
    assert_eq!(out["input"]["input"], 1);
    let over = vec![CompositionStage::new("a").with_energy_cap(600), CompositionStage::new("b").with_energy_cap(500)];
    match CompositionExecutor::new(PipelineConfig::new(over).with_energy_budget(1000)).execute(serde_json::Value::Null) {
        Err(CompositionError::Permanent { message, diagnostic }) => {
            assert_eq!(message, "Manifest error: Energy budget exceeded: requested 500, remaining 400");
            assert!(diagnostic.is_none());
        }
        other => panic!("unexpected {other:?}"),
    }
    let cyclic = vec![CompositionStage::new("x").with_dependencies(vec!["x"])];
    match CompositionExecutor::new(PipelineConfig::new(cyclic)).execute(serde_json::Value::Null) {
        Err(e) => assert_eq!(e.message(), "Permanent error: Validation error: Cycle detected in pipeline dependencies"),
        Ok(v) => panic!("unexpected {v:?}"),
    }
}

#[test]
fn pipeline_depth_is_capped() {
    let c = PipelineConfig::new(vec![]).with_max_depth(20).with_energy_budget(5);
    assert_eq!(c.max_depth, 7);
    assert_eq!(c.energy_budget, 5);
    assert_eq!(PipelineConfig::new(vec![]).with_max_depth(3).max_depth, 3);
}
