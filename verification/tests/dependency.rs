use hkask_templates::dependency::{parse_dependencies, DependencyGraph};

#[test]
fn test_dependency_graph_new() {
    let graph = DependencyGraph::new();
    assert_eq!(graph.edge_count(), 0);
}

#[test]
fn test_dependency_graph_add_edge() {
    let mut graph = DependencyGraph::new();
    graph.add_edge("caller".to_string(), "callee".to_string(), 1);

    assert_eq!(graph.edge_count(), 1);
    let deps = graph.get_dependencies("caller");
    assert_eq!(deps.len(), 1);
    assert_eq!(deps[0].callee, "callee");
}

#[test]
fn test_dependency_graph_no_cycle() {
    let mut graph = DependencyGraph::new();
    graph.add_edge("a".to_string(), "b".to_string(), 1);
    graph.add_edge("b".to_string(), "c".to_string(), 1);

    // Adding d->a would NOT create a cycle (d is not in graph)
    assert!(!graph.would_create_cycle("d", "a"));

    // Adding c->d would NOT create a cycle (d is not reachable from a or b)
    assert!(!graph.would_create_cycle("c", "d"));
}

#[test]
fn test_dependency_graph_detect_cycle() {
    let mut graph = DependencyGraph::new();
    graph.add_edge("a".to_string(), "b".to_string(), 1);
    graph.add_edge("b".to_string(), "c".to_string(), 1);
    graph.add_edge("c".to_string(), "a".to_string(), 1);

    assert!(graph.would_create_cycle("c", "a"));

    let cycles = graph.find_cycles();
    assert!(!cycles.is_empty());
}

#[test]
fn test_dependency_graph_max_depth() {
    let mut graph = DependencyGraph::new();
    graph.add_edge("root".to_string(), "level1".to_string(), 1);
    graph.add_edge("level1".to_string(), "level2".to_string(), 2);
    graph.add_edge("level2".to_string(), "level3".to_string(), 3);

    assert_eq!(graph.get_max_depth("root"), 3);
}

#[test]
fn test_parse_dependencies_include() {
    let source = r#"
        Some text
        {% include "prompt/selector" %}
        More text
        {% include 'process/dispatch' %}
        "#;

    let deps = parse_dependencies("test", source);
    assert_eq!(deps.len(), 2);
    assert!(deps.contains(&"prompt/selector".to_string()));
    assert!(deps.contains(&"process/dispatch".to_string()));
}

#[test]
fn test_parse_dependencies_call() {
    let source = r#"
        {% call "cognition/detect" %}
        "#;

    let deps = parse_dependencies("test", source);
    assert_eq!(deps.len(), 1);
    assert!(deps.contains(&"cognition/detect".to_string()));
}

#[test]
fn test_parse_dependencies_empty() {
    let source = r#"
        No dependencies here
        Just regular content
        "#;

    let deps = parse_dependencies("test", source);
    assert!(deps.is_empty());
}

#[test]
fn test_dependency_graph_clear() {
    let mut graph = DependencyGraph::new();
    graph.add_edge("a".to_string(), "b".to_string(), 1);

    graph.clear();

    assert_eq!(graph.edge_count(), 0);
}

#[test]
fn test_dependency_graph_dependents() {
    let mut graph = DependencyGraph::new();
    graph.add_edge("a".to_string(), "b".to_string(), 1);
    graph.add_edge("c".to_string(), "b".to_string(), 1);

    let dependents = graph.get_dependents("b");
    assert_eq!(dependents.len(), 2);
}

// Further cases of this crate's own.

#[test]
fn dependency_reach_is_transitive_and_reflexive() {
    let mut graph = DependencyGraph::new();
    graph.add_edge("a".to_string(), "b".to_string(), 1);
    graph.add_edge("b".to_string(), "c".to_string(), 2);
    assert!(graph.can_reach("a", "c"));
    assert!(!graph.can_reach("c", "a"));
    assert!(graph.can_reach("zzz", "zzz"));
}

#[test]
fn dependency_cycles_are_listed_from_the_reentered_template() {
    let mut graph = DependencyGraph::new();
    graph.add_edge("a".to_string(), "b".to_string(), 1);
    graph.add_edge("b".to_string(), "a".to_string(), 1);
    let cycles = graph.find_cycles();
    assert_eq!(cycles.len(), 1);
    assert_eq!(cycles[0], vec!["a".to_string(), "b".to_string()]);
}

#[test]
fn dependency_acyclic_graph_has_no_cycles() {
    let mut graph = DependencyGraph::new();
    graph.add_edge("a".to_string(), "b".to_string(), 1);
    graph.add_edge("a".to_string(), "c".to_string(), 1);
    graph.add_edge("c".to_string(), "b".to_string(), 1);
    assert!(graph.find_cycles().is_empty());
}

#[test]
fn dependency_max_depth_is_longest_chain() {
    let mut graph = DependencyGraph::new();
    graph.add_edge("a".to_string(), "b".to_string(), 1);
    graph.add_edge("a".to_string(), "c".to_string(), 1);
    graph.add_edge("c".to_string(), "b".to_string(), 1);
    assert_eq!(graph.get_max_depth("a"), 2);
    assert_eq!(graph.get_max_depth("c"), 1);
    assert_eq!(graph.get_max_depth("b"), 0);
    assert_eq!(graph.get_max_depth("unknown"), 0);
}

#[test]
fn dependency_max_depth_does_not_depend_on_edge_order() {
    // The direct edge r->b is met before the longer chain r->a->b.
    let mut graph = DependencyGraph::new();
    graph.add_edge("r".to_string(), "a".to_string(), 1);
    graph.add_edge("r".to_string(), "b".to_string(), 1);
    graph.add_edge("a".to_string(), "b".to_string(), 1);
    assert_eq!(graph.get_max_depth("r"), 2);
}

#[test]
fn dependency_template_ids_are_all_endpoints() {
    let mut graph = DependencyGraph::new();
    graph.add_edge("a".to_string(), "b".to_string(), 1);
    let ids: Vec<&str> = graph.get_all_template_ids().into_iter().map(|s| s.as_str()).collect();
    assert_eq!(ids, vec!["a", "b"]);

    graph.add_edge("a".to_string(), "c".to_string(), 1);
    graph.add_edge("c".to_string(), "b".to_string(), 1);
    let ids: Vec<&str> = graph.get_all_template_ids().into_iter().map(|s| s.as_str()).collect();
    assert_eq!(ids, vec!["a", "b", "c"]);
    assert!(DependencyGraph::new().get_all_template_ids().is_empty());
}

#[test]
fn parse_dependencies_line_with_include_and_call() {
    let deps = parse_dependencies("t", "{% include \"x\" %}{% call 'y' %}\n{% include \"\" %}");
    assert_eq!(deps, vec!["x".to_string(), "y".to_string()]);
}

#[test]
fn dependency_edges_add_up_caller_by_caller() {
    let mut graph = DependencyGraph::new();
    graph.add_edge("a".to_string(), "b".to_string(), 1);
    graph.add_edge("a".to_string(), "b".to_string(), 1);
    graph.add_edge("b".to_string(), "c".to_string(), 2);
    let total: usize = graph.get_all_template_ids().iter().map(|id| graph.get_dependencies(id).len()).sum();
    assert_eq!(total, graph.edge_count());
    assert_eq!(graph.edge_count(), 3);
    graph.clear();
    assert_eq!(graph.edge_count(), 0);
}
