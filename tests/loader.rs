use composable_runtime::cli::{parse_command, parse_quoted_args, prepare_args, split_quoted_args, ArgError, Command, TypedArg};
use composable_runtime::function::FunctionParam;
use composable_runtime::json::{JsonNumber, JsonValue};
use composable_runtime::loader::{
    classify_path, create_implicit_component_definitions, definition_from_entry, definitions_from_manifest,
    implicit_component_name, Definition,
    names_runtime_feature, validate_component_enables_scope, validate_definitions,
    validate_runtime_feature_enables_scope, LoaderError, PathKind,
};
use composable_runtime::types::{
    default_enables, parse_enables, ComponentDefinition, ComponentDefinitionBase, DefinitionBase,
    EnableScope, RuntimeFeatureDefinition,
};

fn component(name: &str, enables: &str, expects: &[&str], exposed: bool) -> ComponentDefinition {
    ComponentDefinition {
        name: name.to_string(),
        base: ComponentDefinitionBase {
            base: DefinitionBase { uri: format!("{}.wasm", name), enables: enables.to_string() },
            expects: expects.iter().map(|s| s.to_string()).collect(),
            intercepts: Vec::new(),
            precedence: 0,
            exposed,
            config: None,
        },
    }
}

fn feature(name: &str, enables: &str) -> RuntimeFeatureDefinition {
    RuntimeFeatureDefinition {
        name: name.to_string(),
        base: DefinitionBase { uri: "wasmtime:http".to_string(), enables: enables.to_string() },
        config: Vec::new(),
    }
}

#[test]
fn paths_are_classified() {
    assert_eq!(classify_path("defs/app.toml").unwrap(), PathKind::Manifest);
    assert_eq!(classify_path("/tmp/client.wasm").unwrap(), PathKind::Wasm);
    assert_eq!(classify_path("oci://ghcr.io/modulewise/hello:0.1.0").unwrap(), PathKind::Oci);
    assert!(matches!(classify_path("notes.txt"), Err(LoaderError::UnsupportedFileType(p)) if p == "notes.txt"));
    assert!(matches!(classify_path("Makefile"), Err(LoaderError::MissingExtension(p)) if p == "Makefile"));
}

#[test]
fn implicit_names() {
    assert_eq!(implicit_component_name("oci://ghcr.io/modulewise/hello:0.1.0").unwrap(), "hello");
    assert_eq!(implicit_component_name("oci://hello:0.1.0").unwrap(), "hello");
    assert!(matches!(implicit_component_name("oci://ghcr.io/hello"), Err(LoaderError::InvalidOciUri(_))));
    assert_eq!(implicit_component_name("/tmp/build/client.wasm").unwrap(), "client");
}

#[test]
fn test_direct_wasm_file() {
    let defs = create_implicit_component_definitions(&vec!["/tmp/x/client.wasm".to_string()]).unwrap();
    assert_eq!(defs.len(), 1);
    assert_eq!(defs[0].name, "client");
    assert_eq!(defs[0].base.base.uri, "/tmp/x/client.wasm");
    assert_eq!(defs[0].base.base.enables, "none");
    assert!(defs[0].base.exposed);
    assert!(defs[0].base.expects.is_empty());
}

#[test]
fn scopes_are_validated() {
    assert!(validate_runtime_feature_enables_scope("unexposed", "infra").is_ok());
    assert!(matches!(
        validate_runtime_feature_enables_scope("package", "infra"),
        Err(LoaderError::RuntimeFeatureScope { name, enables }) if name == "infra" && enables == "package"
    ));
    assert!(matches!(validate_runtime_feature_enables_scope("everyone", "infra"), Err(LoaderError::InvalidScope(_))));
    assert!(validate_component_enables_scope("namespace").is_ok());
    assert!(matches!(validate_component_enables_scope("all"), Err(LoaderError::InvalidScope(s)) if s == "all"));
    assert_eq!(parse_enables("exposed"), Some(EnableScope::Exposed));
    assert_eq!(parse_enables("none"), Some(EnableScope::Nobody));
    assert_eq!(parse_enables("None"), None);
    assert_eq!(default_enables(), "none");
}

#[test]
fn definitions_are_validated() {
    assert!(validate_definitions(&vec![feature("infra", "any")], &vec![component("a", "none", &["infra"], false)]).is_ok());
    assert!(matches!(
        validate_definitions(&vec![feature("a", "any")], &vec![component("a", "none", &[], false)]),
        Err(LoaderError::DuplicateName(n)) if n == "a"
    ));
    assert!(matches!(
        validate_definitions(&vec![], &vec![component("a", "none", &["ghost"], false)]),
        Err(LoaderError::UndefinedExpectation { component, expected }) if component == "a" && expected == "ghost"
    ));
    // An exposed component may expect a name that is not defined.
    assert!(validate_definitions(&vec![], &vec![component("a", "none", &["ghost"], true)]).is_ok());
    assert!(matches!(
        validate_definitions(&vec![feature("f", "namespace")], &vec![]),
        Err(LoaderError::RuntimeFeatureScope { .. })
    ));
}

#[test]
fn runtime_feature_uris() {
    assert!(names_runtime_feature("wasmtime:http"));
    assert!(names_runtime_feature("host:greeter"));
    assert!(!names_runtime_feature("oci://ghcr.io/x/y:1.0.0"));
    assert!(!names_runtime_feature("file:///tmp/a.wasm"));
}

#[test]
fn quoted_arguments_stay_together() {
    assert_eq!(
        parse_quoted_args("invoke greeter.greet \"hello world\" 'a b'"),
        vec!["invoke", "greeter.greet", "hello world", "a b"]
    );
    assert_eq!(parse_quoted_args("\t list  \n"), vec!["list"]);
    assert_eq!(parse_quoted_args("say \"it's\""), vec!["say", "it's"]);
    assert!(parse_quoted_args("   ").is_empty());
    assert_eq!(parse_quoted_args("a\"b c\"d"), vec!["ab cd"]);
}

fn param(name: &str, ty: &str, optional: bool) -> FunctionParam {
    FunctionParam {
        name: name.to_string(),
        json_schema: JsonValue::Object(vec![("type".to_string(), JsonValue::Str(ty.to_string()))]),
        is_optional: optional,
    }
}

fn typed(text: &str, parsed: Option<JsonValue>) -> TypedArg {
    TypedArg { text: text.to_string(), parsed }
}

#[test]
fn commands_are_recognised() {
    let words = |s: &str| parse_quoted_args(s);
    assert!(matches!(parse_command(&words("list")), Command::List));
    assert!(matches!(parse_command(&words("describe a.b")), Command::Describe { target } if target == "a.b"));
    assert!(matches!(parse_command(&words("describe")), Command::Usage(w) if w == "describe"));
    match parse_command(&words("invoke greeter.greet 'hi there' 3")) {
        Command::Invoke { target, args } => {
            assert_eq!(target, "greeter.greet");
            assert_eq!(args, vec!["hi there", "3"]);
        }
        other => panic!("unexpected {:?}", other),
    }
    assert!(matches!(parse_command(&words("quit")), Command::Exit));
    assert!(matches!(parse_command(&words("exit")), Command::Exit));
    assert!(matches!(parse_command(&words("help")), Command::Help));
    assert!(matches!(parse_command(&words("frobnicate")), Command::Unknown));
    assert!(matches!(parse_command(&words("")), Command::Empty));
}

#[test]
fn arguments_are_coerced_and_padded() {
    let params = vec![param("name", "string", false), param("count", "integer", false), param("note", "string", true)];
    let values = prepare_args(
        &params,
        vec![typed("42", Some(JsonValue::Number(JsonNumber::PosInt(42)))), typed("7", Some(JsonValue::Number(JsonNumber::PosInt(7))))],
    )
    .unwrap();
    assert_eq!(values.len(), 3);
    assert!(matches!(&values[0], JsonValue::Str(s) if s == "42"));
    assert!(matches!(values[1], JsonValue::Number(JsonNumber::PosInt(7))));
    assert!(matches!(values[2], JsonValue::Null));
    let words = prepare_args(&params, vec![typed("hello", None), typed("1", Some(JsonValue::Number(JsonNumber::PosInt(1))))]).unwrap();
    assert!(matches!(&words[0], JsonValue::Str(s) if s == "hello"));
    assert!(matches!(
        prepare_args(&params, vec![typed("a", None)]),
        Err(ArgError::MissingRequired(n)) if n == "count"
    ));
    assert!(matches!(
        prepare_args(&params[..1].iter().map(|p| param(&p.name, "string", false)).collect::<Vec<_>>(), vec![typed("a", None), typed("b", None)]),
        Err(ArgError::TooMany { expected: 1, got: 2 })
    ));
}

fn entry(members: Vec<(&str, JsonValue)>) -> JsonValue {
    JsonValue::Object(members.into_iter().map(|(k, v)| (k.to_string(), v)).collect())
}

fn s(text: &str) -> JsonValue {
    JsonValue::Str(text.to_string())
}

#[test]
fn manifest_entries_become_definitions() {
    let component = definition_from_entry(
        &"handler".to_string(),
        entry(vec![
            ("uri", s("handler.wasm")),
            ("expects", JsonValue::Array(vec![s("client")])),
            ("exposed", JsonValue::Bool(true)),
            ("precedence", JsonValue::Number(JsonNumber::NegInt(-3))),
            ("config", entry(vec![("foo", s("42"))])),
        ]),
    )
    .unwrap();
    match component {
        Definition::Component(c) => {
            assert_eq!(c.name, "handler");
            assert_eq!(c.base.base.uri, "handler.wasm");
            assert_eq!(c.base.base.enables, "none");
            assert_eq!(c.base.expects, vec!["client"]);
            assert!(c.base.intercepts.is_empty());
            assert_eq!(c.base.precedence, -3);
            assert!(c.base.exposed);
            let config = c.base.config.unwrap();
            assert_eq!(config.len(), 1);
            assert_eq!(config[0].0, "foo");
        }
        other => panic!("unexpected {:?}", other),
    }
    match definition_from_entry(&"infra".to_string(), entry(vec![("uri", s("wasmtime:some-infra")), ("enables", s("unexposed"))])).unwrap() {
        Definition::Feature(f) => {
            assert_eq!(f.name, "infra");
            assert_eq!(f.base.uri, "wasmtime:some-infra");
            assert_eq!(f.base.enables, "unexposed");
        }
        other => panic!("unexpected {:?}", other),
    }
}

#[test]
fn malformed_manifest_entries_are_refused() {
    let name = "x".to_string();
    assert!(matches!(definition_from_entry(&name, s("nope")), Err(LoaderError::NotATable(n)) if n == "x"));
    assert!(matches!(definition_from_entry(&name, entry(vec![("enables", s("any"))])), Err(LoaderError::MissingUri(_))));
    assert!(matches!(
        definition_from_entry(&name, entry(vec![("uri", s("a.wasm")), ("exposed", s("yes"))])),
        Err(LoaderError::BadField { field, .. }) if field == "exposed"
    ));
    assert!(matches!(
        definition_from_entry(&name, entry(vec![("uri", s("a.wasm")), ("expects", JsonValue::Array(vec![JsonValue::Bool(true)]))])),
        Err(LoaderError::BadField { field, .. }) if field == "expects"
    ));
    assert!(matches!(
        definition_from_entry(&name, entry(vec![("uri", s("a.wasm")), ("precedence", JsonValue::Number(JsonNumber::PosInt(1 << 40)))])),
        Err(LoaderError::BadField { field, .. }) if field == "precedence"
    ));
    assert!(matches!(definitions_from_manifest(JsonValue::Null), Err(LoaderError::NotATableRoot)));
    let (features, components) = definitions_from_manifest(entry(vec![
        ("infra", entry(vec![("uri", s("wasmtime:io"))])),
        ("client", entry(vec![("uri", s("client.wasm"))])),
    ]))
    .unwrap();
    assert_eq!(features.len(), 1);
    assert_eq!(components.len(), 1);
}

#[test]
fn arguments_split_at_any_whitespace() {
    assert_eq!(split_quoted_args("a\tb\nc"), vec!["a", "b", "c"]);
    assert_eq!(split_quoted_args("x\u{3000}'y z'"), vec!["x", "y z"]);
    assert!(split_quoted_args(" \t").is_empty());
    assert_eq!(parse_quoted_args("\u{a0}invoke a.b\u{2028}"), vec!["invoke", "a.b"]);
}
