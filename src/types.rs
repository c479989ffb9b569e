//! Definitions read from manifests: components, runtime features and the
//! scopes under which a provider is visible to its consumers.

use vstd::prelude::*;
use crate::json::JsonValue;
use crate::text::str_eq;

verus! {

/// Which consumers may see a provider.
#[derive(Clone, Copy, Debug, PartialEq, Eq, Structural)]
pub enum EnableScope {
    Nobody,
    Any,
    Exposed,
    Unexposed,
    Package,
    Namespace,
}

/// The scope that a manifest word names, if it names one.
pub open spec fn scope_of(s: Seq<char>) -> Option<EnableScope> {
    if s == "none"@ {
        Some(EnableScope::Nobody)
    } else if s == "any"@ {
        Some(EnableScope::Any)
    } else if s == "exposed"@ {
        Some(EnableScope::Exposed)
    } else if s == "unexposed"@ {
        Some(EnableScope::Unexposed)
    } else if s == "package"@ {
        Some(EnableScope::Package)
    } else if s == "namespace"@ {
        Some(EnableScope::Namespace)
    } else {
        None
    }
}

/// Reads a manifest word as a scope.
pub fn parse_enables(s: &str) -> (r: Option<EnableScope>)
    ensures
        r == scope_of(s@),
{
    if str_eq(s, "none") {
        Some(EnableScope::Nobody)
    } else if str_eq(s, "any") {
        Some(EnableScope::Any)
    } else if str_eq(s, "exposed") {
        Some(EnableScope::Exposed)
    } else if str_eq(s, "unexposed") {
        Some(EnableScope::Unexposed)
    } else if str_eq(s, "package") {
        Some(EnableScope::Package)
    } else if str_eq(s, "namespace") {
        Some(EnableScope::Namespace)
    } else {
        None
    }
}

/// The scope a definition has when its manifest entry names none.
pub fn default_enables() -> (r: String)
    ensures
        r@ == "none"@,
{
    "none".to_string()
}

/// What every definition has: where it comes from and whom it enables.
#[derive(Debug)]
pub struct DefinitionBase {
    pub uri: String,
    /// One of `none`, `package`, `namespace`, `unexposed`, `exposed`, `any`.
    pub enables: String,
}

/// The fields of a component definition besides its name.
#[derive(Debug)]
pub struct ComponentDefinitionBase {
    pub base: DefinitionBase,
    /// Named definitions this component expects to be available.
    pub expects: Vec<String>,
    /// Definitions this component intercepts.
    pub intercepts: Vec<String>,
    /// Lower values stand further out in an interceptor chain.
    pub precedence: i32,
    pub exposed: bool,
    /// Configuration values, keyed by name.
    pub config: Option<Vec<(String, JsonValue)>>,
}

/// A host-provided capability: a built-in `wasmtime:` feature or a `host:` extension.
#[derive(Debug)]
pub struct RuntimeFeatureDefinition {
    pub name: String,
    pub base: DefinitionBase,
    /// Configuration handed to the feature's extension, keyed by name.
    pub config: Vec<(String, JsonValue)>,
}

/// A named Wasm component with its dependencies.
#[derive(Debug)]
pub struct ComponentDefinition {
    pub name: String,
    pub base: ComponentDefinitionBase,
}

impl ComponentDefinition {
    pub open spec fn enables_view(&self) -> Seq<char> {
        self.base.base.enables@
    }

    pub open spec fn uri_view(&self) -> Seq<char> {
        self.base.base.uri@
    }
}

impl RuntimeFeatureDefinition {
    pub open spec fn enables_view(&self) -> Seq<char> {
        self.base.enables@
    }

    pub open spec fn uri_view(&self) -> Seq<char> {
        self.base.uri@
    }
}

} // verus!
