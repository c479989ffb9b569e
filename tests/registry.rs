use composable_runtime::graph::ComponentGraph;
use composable_runtime::invoke::{context_plan, link_action, ContextPlan, LinkAction};
use composable_runtime::registry::{
    check_imports, create_runtime_feature_registry, get_interfaces_for_runtime_feature,
    is_import_satisfied, metadata_from_exports, remove_exported, strip_config_imports, unsatisfied_imports,
    ComponentMetadata, ComponentRegistry, ComponentSpec, EnablingComponent, RegistryError,
    RuntimeFeature, RuntimeFeatureRegistry,
};
use composable_runtime::types::{
    ComponentDefinition, ComponentDefinitionBase, DefinitionBase, RuntimeFeatureDefinition,
};

fn strings(v: &[&str]) -> Vec<String> {
    v.iter().map(|s| s.to_string()).collect()
}

fn component(name: &str, enables: &str, expects: &[&str], exposed: bool) -> ComponentDefinition {
    ComponentDefinition {
        name: name.to_string(),
        base: ComponentDefinitionBase {
            base: DefinitionBase { uri: format!("{}.wasm", name), enables: enables.to_string() },
            expects: strings(expects),
            intercepts: Vec::new(),
            precedence: 0,
            exposed,
            config: None,
        },
    }
}

fn feature(name: &str, uri: &str, enables: &str) -> RuntimeFeatureDefinition {
    RuntimeFeatureDefinition {
        name: name.to_string(),
        base: DefinitionBase { uri: uri.to_string(), enables: enables.to_string() },
        config: Vec::new(),
    }
}

fn spec(name: &str, imports: &[&str], exports: &[&str], features: &[&str]) -> ComponentSpec {
    ComponentSpec {
        name: name.to_string(),
        namespace: Some("modulewise".to_string()),
        package: Some("test".to_string()),
        bytes: vec![0, 97, 115, 109],
        imports: strings(imports),
        exports: strings(exports),
        runtime_features: strings(features),
        functions: None,
    }
}

fn no_metadata() -> ComponentMetadata {
    ComponentMetadata { namespace: None, package: None }
}

#[test]
fn builtin_feature_interfaces() {
    let http = get_interfaces_for_runtime_feature("wasmtime:http");
    assert_eq!(http, strings(&["wasi:http/outgoing-handler@0.2.12", "wasi:http/types@0.2.12"]));
    assert_eq!(get_interfaces_for_runtime_feature("wasmtime:random").len(), 2);
    assert_eq!(get_interfaces_for_runtime_feature("wasmtime:inherit-stdio").len(), 3);
    assert_eq!(get_interfaces_for_runtime_feature("wasmtime:wasip2").len(), 21);
    assert!(get_interfaces_for_runtime_feature("wasmtime:some-infra").is_empty());
}

#[test]
fn feature_registry_from_definitions() {
    let defs = vec![
        feature("infra", "wasmtime:some-infra", "unexposed"),
        feature("greeter", "host:greeter", "any"),
        feature("io", "wasmtime:io", "any"),
    ];
    let hosts = vec![("greeter".to_string(), strings(&["modulewise:test-host/greeter"]))];
    let registry = create_runtime_feature_registry(&defs, &hosts).unwrap();
    assert_eq!(registry.runtime_features.len(), 3);
    assert_eq!(registry.get_runtime_feature("infra").unwrap().uri, "wasmtime:some-infra");
    assert_eq!(
        registry.get_runtime_feature("greeter").unwrap().interfaces,
        strings(&["modulewise:test-host/greeter"])
    );
    assert_eq!(registry.get_runtime_feature("io").unwrap().interfaces.len(), 3);
    assert!(registry.get_runtime_feature("absent").is_none());
}

#[test]
fn test_missing_host_extension_panics() {
    let defs = vec![feature("missing", "host:missing", "any")];
    match create_runtime_feature_registry(&defs, &Vec::new()) {
        Err(RegistryError::ExtensionMissing { name, uri }) => {
            assert_eq!(name, "missing");
            assert_eq!(uri, "host:missing");
        }
        other => panic!("expected a missing extension, got {:?}", other.map(|_| ())),
    }
}

#[test]
fn runtime_feature_scopes() {
    let registry = RuntimeFeatureRegistry::new(vec![
        ("a".to_string(), RuntimeFeature { uri: "wasmtime:io".to_string(), enables: "any".to_string(), interfaces: vec![] }),
        ("e".to_string(), RuntimeFeature { uri: "wasmtime:io".to_string(), enables: "exposed".to_string(), interfaces: vec![] }),
        ("u".to_string(), RuntimeFeature { uri: "wasmtime:io".to_string(), enables: "unexposed".to_string(), interfaces: vec![] }),
        ("n".to_string(), RuntimeFeature { uri: "wasmtime:io".to_string(), enables: "none".to_string(), interfaces: vec![] }),
    ]);
    let exposed = component("x", "none", &[], true);
    let hidden = component("y", "none", &[], false);
    assert!(registry.get_enabled_runtime_feature(&exposed, "a").is_some());
    assert!(registry.get_enabled_runtime_feature(&exposed, "e").is_some());
    assert!(registry.get_enabled_runtime_feature(&hidden, "e").is_none());
    assert!(registry.get_enabled_runtime_feature(&hidden, "u").is_some());
    assert!(registry.get_enabled_runtime_feature(&exposed, "u").is_none());
    assert!(registry.get_enabled_runtime_feature(&exposed, "n").is_none());
    assert!(registry.get_enabled_runtime_feature(&exposed, "zzz").is_none());
}

#[test]
fn component_dependency_scopes() {
    let mut registry = ComponentRegistry::empty();
    registry.enabling_components.push((
        "pkg".to_string(),
        EnablingComponent { component: spec("pkg", &[], &[], &[]), exposed: false, enables: "package".to_string() },
    ));
    registry.enabling_components.push((
        "ns".to_string(),
        EnablingComponent { component: spec("ns", &[], &[], &[]), exposed: false, enables: "namespace".to_string() },
    ));
    let consumer = component("c", "none", &[], false);
    let same = ComponentMetadata { namespace: Some("modulewise".to_string()), package: Some("test".to_string()) };
    let other = ComponentMetadata { namespace: Some("other".to_string()), package: Some("other".to_string()) };
    assert!(registry.get_enabled_component_dependency(&consumer, &same, "pkg").is_some());
    assert!(registry.get_enabled_component_dependency(&consumer, &other, "pkg").is_none());
    assert!(registry.get_enabled_component_dependency(&consumer, &same, "ns").is_some());
    assert!(registry.get_enabled_component_dependency(&consumer, &other, "ns").is_none());
    assert!(registry.get_enabled_component_dependency(&consumer, &no_metadata(), "pkg").is_none());
}

#[test]
fn imports_match_newer_patch_versions() {
    let provided = strings(&["wasi:io/streams@0.2.12", "modulewise:test-host/greeter"]);
    assert!(is_import_satisfied("wasi:io/streams@0.2.3", &provided));
    assert!(is_import_satisfied("wasi:io/streams@0.2.12", &provided));
    assert!(!is_import_satisfied("wasi:io/streams@0.2.13", &provided));
    assert!(!is_import_satisfied("wasi:io/streams@0.3.0", &provided));
    assert!(!is_import_satisfied("wasi:io/poll@0.2.3", &provided));
    assert!(is_import_satisfied("modulewise:test-host/greeter", &provided));
    assert!(!is_import_satisfied("modulewise:test/client@0.1.0", &provided));
}

#[test]
fn more_features_keep_imports_met() {
    let import = "wasi:io/error@0.2.0";
    let fewer = strings(&["wasi:io/error@0.2.12"]);
    let more = strings(&["wasi:http/types@0.2.12", "wasi:io/error@0.2.12"]);
    assert!(is_import_satisfied(import, &fewer));
    assert!(is_import_satisfied(import, &more));
}

#[test]
fn unmet_imports_are_listed_in_order() {
    let imports = strings(&["a:b/c@1.0.0", "wasi:io/poll@0.2.0", "x:y/z"]);
    let provided = strings(&["wasi:io/poll@0.2.12"]);
    assert_eq!(unsatisfied_imports(&imports, &provided), strings(&["a:b/c@1.0.0", "x:y/z"]));
    match check_imports(&"handler".to_string(), &imports, &provided) {
        Err(RegistryError::UnsatisfiedImports { component, imports }) => {
            assert_eq!(component, "handler");
            assert_eq!(imports, strings(&["a:b/c@1.0.0", "x:y/z"]));
        }
        other => panic!("expected unmet imports, got {:?}", other),
    }
    assert!(check_imports(&"h".to_string(), &strings(&["wasi:io/poll@0.2.1"]), &provided).is_ok());
}

#[test]
fn config_imports_are_set_apart() {
    let (found, rest) = strip_config_imports(&strings(&["wasi:config/store@0.2.0-rc.1", "wasi:io/poll@0.2.0"]));
    assert!(found);
    assert_eq!(rest, strings(&["wasi:io/poll@0.2.0"]));
    let (found, rest) = strip_config_imports(&strings(&["wasi:io/poll@0.2.0"]));
    assert!(!found);
    assert_eq!(rest.len(), 1);
}

#[test]
fn exported_interfaces_leave_imports() {
    let rest = remove_exported(
        &strings(&["modulewise:test/client@0.1.0", "wasi:io/poll@0.2.0"]),
        &strings(&["modulewise:test/client@0.1.0"]),
    );
    assert_eq!(rest, strings(&["wasi:io/poll@0.2.0"]));
}

#[test]
fn test_expects_and_enables() {
    let graph = ComponentGraph::build(
        vec![component("client", "exposed", &["infra"], false), component("handler", "none", &["client"], true)],
        vec![feature("infra", "wasmtime:some-infra", "unexposed")],
    )
    .unwrap();
    let features = create_runtime_feature_registry(&vec![feature("infra", "wasmtime:some-infra", "unexposed")], &Vec::new()).unwrap();
    let mut registry = ComponentRegistry::empty();

    let client_index = graph.get_node_index("client").unwrap();
    let client = registry.resolve_component(&features, &graph, client_index, &no_metadata(), &Vec::new()).unwrap();
    assert_eq!(client.runtime_features, strings(&["infra"]));
    assert!(client.dependencies.is_empty());
    let client_def = component("client", "exposed", &["infra"], false);
    let client_spec = spec("client", &[], &["modulewise:test/client@0.1.0"], &["infra"]);
    assert!(registry.record_outcome(&client_def, Ok(client_spec)).is_ok());
    assert_eq!(registry.get_components().len(), 0);
    assert_eq!(registry.enabling_components.len(), 1);

    let handler_index = graph.get_node_index("handler").unwrap();
    let handler = registry
        .resolve_component(&features, &graph, handler_index, &no_metadata(), &strings(&["modulewise:test/client@0.1.0"]))
        .unwrap();
    assert_eq!(handler.dependencies, vec![0]);
    assert!(handler.imports.is_empty());
    assert_eq!(handler.runtime_features, strings(&["infra"]));
    assert!(!handler.compose_config);
    let handler_def = component("handler", "none", &["client"], true);
    let handler_spec = spec("handler", &[], &["modulewise:test/handler@0.1.0"], &["infra"]);
    assert!(registry.record_outcome(&handler_def, Ok(handler_spec)).is_ok());
    assert_eq!(registry.get_components().len(), 1);
    let published = registry.get_component("handler").unwrap();
    assert_eq!(published.exports, strings(&["modulewise:test/handler@0.1.0"]));
    assert_eq!(published.runtime_features, strings(&["infra"]));
}

#[test]
fn disabled_dependency_is_fatal() {
    let graph = ComponentGraph::build(
        vec![component("client", "none", &[], false), component("handler", "none", &["client"], true)],
        vec![],
    )
    .unwrap();
    let features = RuntimeFeatureRegistry::new(Vec::new());
    let registry = ComponentRegistry::empty();
    let handler_index = graph.get_node_index("handler").unwrap();
    match registry.resolve_component(&features, &graph, handler_index, &no_metadata(), &Vec::new()) {
        Err(RegistryError::DependencyDisabled { component, dependency }) => {
            assert_eq!(component, "handler");
            assert_eq!(dependency, "client");
        }
        other => panic!("expected a disabled dependency, got {:?}", other.map(|_| ())),
    }
}

#[test]
fn disabled_feature_is_fatal() {
    let graph = ComponentGraph::build(
        vec![component("handler", "none", &["infra"], true)],
        vec![feature("infra", "wasmtime:io", "unexposed")],
    )
    .unwrap();
    let features = create_runtime_feature_registry(&vec![feature("infra", "wasmtime:io", "unexposed")], &Vec::new()).unwrap();
    let registry = ComponentRegistry::empty();
    let index = graph.get_node_index("handler").unwrap();
    let result = registry.resolve_component(&features, &graph, index, &no_metadata(), &Vec::new());
    assert!(matches!(result, Err(RegistryError::FeatureDisabled { feature, .. }) if feature == "infra"));
}

#[test]
fn test_unsatisfied_import_for_exposed_component() {
    let graph = ComponentGraph::build(vec![component("handler", "none", &[], true)], vec![]).unwrap();
    let features = RuntimeFeatureRegistry::new(Vec::new());
    let mut registry = ComponentRegistry::empty();
    let index = graph.get_node_index("handler").unwrap();
    let outcome = registry
        .resolve_component(&features, &graph, index, &no_metadata(), &strings(&["modulewise:test/client@0.1.0"]))
        .map(|_| spec("handler", &[], &[], &[]));
    assert!(matches!(outcome, Err(RegistryError::UnsatisfiedImports { .. })));
    assert!(registry.record_outcome(&component("handler", "none", &[], true), outcome).is_ok());
    assert_eq!(registry.get_components().len(), 0);
}

#[test]
fn test_unsatisfied_import_for_enabling_component() {
    let graph = ComponentGraph::build(vec![component("handler", "any", &[], false)], vec![]).unwrap();
    let features = RuntimeFeatureRegistry::new(Vec::new());
    let mut registry = ComponentRegistry::empty();
    let index = graph.get_node_index("handler").unwrap();
    let outcome = registry
        .resolve_component(&features, &graph, index, &no_metadata(), &strings(&["modulewise:test/client@0.1.0"]))
        .map(|_| spec("handler", &[], &[], &[]));
    let result = registry.record_outcome(&component("handler", "any", &[], false), outcome);
    match result {
        Err(RegistryError::UnsatisfiedImports { component, imports }) => {
            assert_eq!(component, "handler");
            assert_eq!(imports, strings(&["modulewise:test/client@0.1.0"]));
        }
        other => panic!("expected unmet imports, got {:?}", other),
    }
    assert!(registry.enabling_components.is_empty());
}

#[test]
fn config_import_is_composed_not_linked() {
    let graph = ComponentGraph::build(vec![component("test-component", "none", &[], true)], vec![]).unwrap();
    let features = RuntimeFeatureRegistry::new(Vec::new());
    let registry = ComponentRegistry::empty();
    let index = graph.get_node_index("test-component").unwrap();
    let resolution = registry
        .resolve_component(&features, &graph, index, &no_metadata(), &strings(&["wasi:config/store@0.2.0-rc.1"]))
        .unwrap();
    assert!(resolution.compose_config);
    assert!(resolution.imports.is_empty());
}

#[test]
fn copy_for_composition_keeps_what_dependents_read() {
    let source = spec("client", &["a:b/c"], &["modulewise:test/client@0.1.0"], &["infra"]);
    let copy = source.copy_for_composition();
    assert_eq!(copy.name, "client");
    assert_eq!(copy.bytes, source.bytes);
    assert_eq!(copy.imports, source.imports);
    assert_eq!(copy.exports, source.exports);
    assert_eq!(copy.runtime_features, source.runtime_features);
    assert_eq!(copy.package, source.package);
    assert!(copy.functions.is_none());
}

#[test]
fn features_decide_linking_and_context() {
    assert_eq!(link_action("wasmtime:wasip2"), LinkAction::Wasip2);
    assert_eq!(link_action("wasmtime:http"), LinkAction::Http);
    assert_eq!(link_action("wasmtime:io"), LinkAction::Io);
    assert_eq!(link_action("wasmtime:random"), LinkAction::Random);
    assert_eq!(link_action("wasmtime:inherit-stdio"), LinkAction::ContextOnly);
    assert_eq!(link_action("wasmtime:allow-ip-name-lookup"), LinkAction::ContextOnly);
    assert_eq!(link_action("wasmtime:some-infra"), LinkAction::Unknown);
    assert_eq!(link_action("host:greeter"), LinkAction::HostExtension);
    assert_eq!(link_action("client.wasm"), LinkAction::NotAFeature);

    let defs = vec![
        feature("stdio", "wasmtime:inherit-stdio", "any"),
        feature("http", "wasmtime:http", "any"),
        feature("net", "wasmtime:inherit-network", "any"),
    ];
    let registry = create_runtime_feature_registry(&defs, &Vec::new()).unwrap();
    let plan = context_plan(&registry, &strings(&["stdio", "http"]));
    assert!(plan.inherit_stdio);
    assert!(plan.needs_http);
    assert!(!plan.inherit_network);
    assert!(!plan.allow_ip_name_lookup);
    let none = context_plan(&registry, &strings(&["unknown"]));
    assert_eq!(none, ContextPlan { inherit_stdio: false, inherit_network: false, allow_ip_name_lookup: false, needs_http: false });
}

#[test]
fn default_registry_is_empty() {
    let registry = ComponentRegistry::default();
    assert!(registry.get_components().is_empty());
    assert!(registry.enabling_components.is_empty());
    assert!(registry.get_component("anything").is_none());
}

#[test]
fn metadata_comes_from_the_first_export() {
    let m = metadata_from_exports(&strings(&["modulewise:test/handler@0.1.0", "other:pkg/x"]));
    assert_eq!(m.namespace.as_deref(), Some("modulewise"));
    assert_eq!(m.package.as_deref(), Some("modulewise:test"));
    let none = metadata_from_exports(&Vec::new());
    assert!(none.namespace.is_none() && none.package.is_none());
    let plain = metadata_from_exports(&strings(&["run"]));
    assert!(plain.namespace.is_none() && plain.package.is_none());
}
