use composable_runtime::graph::{node_style, ComponentGraph, DotColor, DotShape, Edge, GraphError, Node};
use composable_runtime::types::{
    ComponentDefinition, ComponentDefinitionBase, DefinitionBase, RuntimeFeatureDefinition,
};

fn component(
    name: &str,
    enables: &str,
    expects: &[&str],
    intercepts: &[&str],
    precedence: i32,
    exposed: bool,
) -> ComponentDefinition {
    ComponentDefinition {
        name: name.to_string(),
        base: ComponentDefinitionBase {
            base: DefinitionBase { uri: format!("{}.wasm", name), enables: enables.to_string() },
            expects: expects.iter().map(|s| s.to_string()).collect(),
            intercepts: intercepts.iter().map(|s| s.to_string()).collect(),
            precedence,
            exposed,
            config: None,
        },
    }
}

fn feature(name: &str, uri: &str, enables: &str) -> RuntimeFeatureDefinition {
    RuntimeFeatureDefinition {
        name: name.to_string(),
        base: DefinitionBase { uri: uri.to_string(), enables: enables.to_string() },
        config: Vec::new(),
    }
}

fn name_of(graph: &ComponentGraph, index: usize) -> String {
    match graph.node(index) {
        Node::Component(d) => d.name.clone(),
        Node::RuntimeFeature(d) => d.name.clone(),
    }
}

fn provider_names(graph: &ComponentGraph, name: &str) -> Vec<String> {
    let index = graph.get_node_index(name).unwrap();
    graph.get_dependencies(index).into_iter().map(|i| name_of(graph, i)).collect()
}

#[test]
fn test_multiple_interceptors() {
    let graph = ComponentGraph::build(
        vec![
            component("client", "unexposed", &[], &[], 0, false),
            component("outer-interceptor", "any", &[], &["client"], 99, false),
            component("inner-interceptor", "any", &[], &["client"], 1, false),
            component("handler", "none", &["client"], &[], 0, true),
        ],
        vec![],
    )
    .unwrap();
    assert_eq!(provider_names(&graph, "handler"), vec!["outer-interceptor"]);
    assert_eq!(provider_names(&graph, "outer-interceptor"), vec!["inner-interceptor"]);
    assert_eq!(provider_names(&graph, "inner-interceptor"), vec!["client"]);
}

#[test]
fn chain_edges_carry_interceptor_precedence() {
    let graph = ComponentGraph::build(
        vec![
            component("client", "unexposed", &[], &[], 0, false),
            component("outer-interceptor", "any", &[], &["client"], 99, false),
            component("inner-interceptor", "any", &[], &["client"], 1, false),
            component("handler", "none", &["client"], &[], 0, true),
        ],
        vec![],
    )
    .unwrap();
    let client = graph.get_node_index("client").unwrap();
    let inner = graph.get_node_index("inner-interceptor").unwrap();
    let outer = graph.get_node_index("outer-interceptor").unwrap();
    let handler = graph.get_node_index("handler").unwrap();
    let kind = |a: usize, b: usize| {
        graph.edges().iter().find(|e| e.source == a && e.target == b).map(|e| e.kind)
    };
    assert_eq!(kind(client, inner), Some(Edge::Interceptor(1)));
    assert_eq!(kind(inner, outer), Some(Edge::Interceptor(99)));
    assert_eq!(kind(outer, handler), Some(Edge::Dependency));
    assert_eq!(kind(client, handler), None);
    assert_eq!(kind(client, outer), None);
}

#[test]
fn test_interceptor_with_enables_scope_mismatch() {
    let graph = ComponentGraph::build(
        vec![
            component("client", "any", &[], &[], 0, false),
            component("interceptor", "unexposed", &[], &["client"], 0, false),
            component("handler", "none", &["client"], &[], 0, true),
        ],
        vec![],
    )
    .unwrap();
    assert_eq!(provider_names(&graph, "handler"), vec!["client"]);
    assert_eq!(provider_names(&graph, "interceptor"), vec!["client"]);
}

#[test]
fn test_simple_interceptor() {
    let graph = ComponentGraph::build(
        vec![
            component("client", "unexposed", &[], &[], 0, false),
            component("interceptor", "exposed", &[], &["client"], 0, false),
            component("handler", "none", &["client"], &[], 0, true),
        ],
        vec![],
    )
    .unwrap();
    assert_eq!(provider_names(&graph, "handler"), vec!["interceptor"]);
    assert_eq!(provider_names(&graph, "interceptor"), vec!["client"]);
    let client = graph.get_node_index("client").unwrap();
    let interceptor = graph.get_node_index("interceptor").unwrap();
    let edge = graph.edges().iter().find(|e| e.source == client && e.target == interceptor).unwrap();
    assert_eq!(edge.kind, Edge::Interceptor(0));
}

#[test]
fn test_circular_dependency() {
    let result = ComponentGraph::build(
        vec![
            component("component-a", "none", &["component-b"], &[], 0, false),
            component("component-b", "none", &["component-a"], &[], 0, false),
        ],
        vec![],
    );
    match result {
        Err(GraphError::CircularDependency(name)) => {
            assert!(name == "component-a" || name == "component-b");
        }
        other => panic!("expected a cycle, got {:?}", other.map(|_| ())),
    }
}

#[test]
fn self_expectation_is_a_cycle() {
    let result = ComponentGraph::build(vec![component("loop", "none", &["loop"], &[], 0, false)], vec![]);
    assert!(matches!(result, Err(GraphError::CircularDependency(n)) if n == "loop"));
}

#[test]
fn duplicate_names_are_refused() {
    let result = ComponentGraph::build(
        vec![component("same", "none", &[], &[], 0, false)],
        vec![feature("same", "wasmtime:http", "any")],
    );
    assert!(matches!(result, Err(GraphError::DuplicateName(n)) if n == "same"));
}

#[test]
fn build_order_puts_providers_first() {
    let graph = ComponentGraph::build(
        vec![
            component("handler", "none", &["client"], &[], 0, true),
            component("client", "exposed", &["infra"], &[], 0, false),
        ],
        vec![feature("infra", "wasmtime:some-infra", "unexposed")],
    )
    .unwrap();
    let order = graph.get_build_order();
    assert_eq!(order.len(), 3);
    let position = |name: &str| {
        let index = graph.get_node_index(name).unwrap();
        order.iter().position(|&i| i == index).unwrap()
    };
    assert!(position("infra") < position("client"));
    assert!(position("client") < position("handler"));
}

#[test]
fn nodes_list_features_then_components() {
    let graph = ComponentGraph::build(
        vec![component("guest", "none", &["greeter"], &[], 0, true)],
        vec![feature("greeter", "host:greeter", "any")],
    )
    .unwrap();
    assert_eq!(graph.nodes().len(), 2);
    assert!(matches!(graph.node(0), Node::RuntimeFeature(d) if d.name == "greeter"));
    assert!(matches!(graph.node(1), Node::Component(d) if d.name == "guest"));
    assert_eq!(provider_names(&graph, "guest"), vec!["greeter"]);
}

#[test]
fn unknown_expectation_adds_no_edge() {
    let graph = ComponentGraph::build(vec![component("handler", "none", &["missing"], &[], 0, true)], vec![]).unwrap();
    assert!(graph.edges().is_empty());
    assert_eq!(graph.get_node_index("missing"), None);
}

#[test]
fn interceptor_reaches_what_it_intercepts() {
    // An interceptor that enables nobody still depends on what it intercepts.
    let graph = ComponentGraph::build(
        vec![
            component("client", "any", &[], &[], 0, false),
            component("logger", "none", &[], &["client"], 0, false),
        ],
        vec![],
    )
    .unwrap();
    assert_eq!(provider_names(&graph, "logger"), vec!["client"]);
}

#[test]
fn nodes_are_styled_for_export() {
    let exposed = Node::Component(component("handler", "none", &[], &[], 0, true));
    let interceptor = Node::Component(component("logger", "any", &[], &["client"], 0, false));
    let plain = Node::Component(component("client", "any", &[], &[], 0, false));
    let feature = Node::RuntimeFeature(feature("io", "wasmtime:io", "any"));
    assert_eq!(node_style(&exposed).shape, DotShape::DoubleOctagon);
    assert_eq!(node_style(&exposed).fill, DotColor::LightGreen);
    assert_eq!(node_style(&interceptor).fill, DotColor::Yellow);
    assert_eq!(node_style(&interceptor).shape, DotShape::Box);
    assert_eq!(node_style(&plain).fill, DotColor::LightBlue);
    assert_eq!(node_style(&feature).shape, DotShape::Ellipse);
    assert_eq!(node_style(&feature).fill, DotColor::Orange);
}
