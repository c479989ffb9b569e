//! Classifying definition files and checking the definitions read from them.

use vstd::prelude::*;
use crate::json::{JsonNumber, JsonValue};
use crate::registry::{find_entry, is_last, lemma_entry_index, lemma_last_unique, lookup};
use crate::text::{has_prefix, starts_with, str_eq, suffix_from};
use crate::types::{
    default_enables, scope_of, ComponentDefinition, ComponentDefinitionBase, DefinitionBase,
    EnableScope, RuntimeFeatureDefinition, parse_enables,
};

verus! {

/// What a definition path names.
#[derive(Clone, Copy, Debug, PartialEq, Eq, Structural)]
pub enum PathKind {
    /// A `.toml` manifest of definitions.
    Manifest,
    /// A standalone `.wasm` component.
    Wasm,
    /// An `oci://` reference to a component image.
    Oci,
}

/// Why definitions could not be loaded.
#[derive(Debug)]
pub enum LoaderError {
    UnsupportedFileType(String),
    MissingExtension(String),
    InvalidOciUri(String),
    NoComponentName(String),
    /// A runtime feature asked for a package or namespace scope.
    RuntimeFeatureScope { name: String, enables: String },
    InvalidScope(String),
    DuplicateName(String),
    /// An unexposed component expects a definition that does not exist.
    UndefinedExpectation { component: String, expected: String },
    /// A manifest is not a table of definitions.
    NotATableRoot,
    /// A manifest entry is not a table.
    NotATable(String),
    /// A manifest entry has no `uri` string.
    MissingUri(String),
    /// A field of a manifest entry has the wrong type or range.
    BadField { definition: String, field: String },
}

/// A definition read from a manifest entry.
#[derive(Debug)]
pub enum Definition {
    Feature(RuntimeFeatureDefinition),
    Component(ComponentDefinition),
}

/// The extension of a path, as `std::path::Path::extension` finds it.
pub uninterp spec fn extension_of(p: Seq<char>) -> Option<Seq<char>>;

/// The file stem of a path, as `std::path::Path::file_stem` finds it.
pub uninterp spec fn file_stem_of(p: Seq<char>) -> Option<Seq<char>>;

/// Relies on `std::path::Path::extension`: the extension depends on the path alone.
#[verifier::external_body]
fn path_extension(p: &str) -> (r: Option<String>)
    ensures
        match r {
            Some(e) => extension_of(p@) == Some(e@),
            None => extension_of(p@) is None,
        },
{
    std::path::Path::new(p).extension().and_then(|s| s.to_str()).map(|s| s.to_string())
}

/// Relies on `std::path::Path::file_stem`: the stem depends on the path alone.
#[verifier::external_body]
fn path_file_stem(p: &str) -> (r: Option<String>)
    ensures
        match r {
            Some(s) => file_stem_of(p@) == Some(s@),
            None => file_stem_of(p@) is None,
        },
{
    std::path::Path::new(p).file_stem().and_then(|s| s.to_str()).map(|s| s.to_string())
}

/// What a path names: an `oci://` reference, else by its extension.
pub open spec fn path_kind(p: Seq<char>) -> Option<PathKind> {
    if has_prefix(p, "oci://"@) {
        Some(PathKind::Oci)
    } else {
        match extension_of(p) {
            Some(e) => if e == "wasm"@ {
                Some(PathKind::Wasm)
            } else if e == "toml"@ {
                Some(PathKind::Manifest)
            } else {
                None
            },
            None => None,
        }
    }
}

/// Classifies a definition path; any extension other than `.toml` and
/// `.wasm` is refused.
pub fn classify_path(path: &str) -> (r: Result<PathKind, LoaderError>)
    ensures
        match r {
            Ok(k) => path_kind(path@) == Some(k),
            Err(LoaderError::UnsupportedFileType(p)) => path_kind(path@) is None && extension_of(path@) is Some && p@ == path@,
            Err(LoaderError::MissingExtension(p)) => path_kind(path@) is None && extension_of(path@) is None && p@ == path@,
            Err(_) => false,
        },
{
    if starts_with(path, "oci://") {
        return Ok(PathKind::Oci);
    }
    match path_extension(path) {
        Some(e) => {
            if str_eq(e.as_str(), "wasm") {
                Ok(PathKind::Wasm)
            } else if str_eq(e.as_str(), "toml") {
                Ok(PathKind::Manifest)
            } else {
                Err(LoaderError::UnsupportedFileType(path.to_string()))
            }
        },
        None => Err(LoaderError::MissingExtension(path.to_string())),
    }
}

/// The name of the component an `oci://` reference names: what lies between
/// the last `/` and the `:` before its version.
pub open spec fn oci_name(reference: Seq<char>) -> Option<Seq<char>> {
    if exists|c: int| is_last(reference, ':', c) {
        let c = choose|c: int| is_last(reference, ':', c);
        let package = reference.subrange(0, c);
        if exists|s: int| is_last(package, '/', s) {
            let s = choose|s: int| is_last(package, '/', s);
            Some(package.subrange(s + 1, package.len() as int))
        } else {
            Some(package)
        }
    } else {
        None
    }
}

/// The name a standalone component gets: from its `oci://` reference, else
/// the file stem of its path.
pub open spec fn implicit_name(path: Seq<char>) -> Option<Seq<char>> {
    if has_prefix(path, "oci://"@) {
        oci_name(path.subrange("oci://"@.len() as int, path.len() as int))
    } else {
        file_stem_of(path)
    }
}

fn find_last_char(s: &str, c: char, to: usize) -> (r: Option<usize>)
    requires
        to <= s@.len(),
    ensures
        match r {
            Some(k) => k < to && is_last(s@.subrange(0, to as int), c, k as int),
            None => !exists|k: int| is_last(s@.subrange(0, to as int), c, k),
        },
{
    let ghost t = s@.subrange(0, to as int);
    let mut i: usize = to;
    while i > 0
        invariant
            i <= to <= s@.len(),
            t == s@.subrange(0, to as int),
            forall|j: int| i <= j < to ==> t[j] != c,
        decreases i,
    {
        if s.get_char(i - 1) == c {
            assert(t[i - 1] == c);
            return Some(i - 1);
        }
        i = i - 1;
    }
    proof {
        assert forall|k: int| !is_last(t, c, k) by {
            if 0 <= k < t.len() {
                assert(t[k] != c);
            }
        }
    }
    None
}

/// The name a standalone component gets from its path.
pub fn implicit_component_name(path: &str) -> (r: Result<String, LoaderError>)
    ensures
        match r {
            Ok(name) => implicit_name(path@) == Some(name@),
            Err(LoaderError::InvalidOciUri(p)) => implicit_name(path@) is None && has_prefix(path@, "oci://"@) && p@ == path@,
            Err(LoaderError::NoComponentName(p)) => implicit_name(path@) is None && !has_prefix(path@, "oci://"@) && p@ == path@,
            Err(_) => false,
        },
{
    if starts_with(path, "oci://") {
        let reference = suffix_from(path, "oci://".unicode_len());
        let r = reference.as_str();
        let n = r.unicode_len();
        match find_last_char(r, ':', n) {
            Some(c) => {
                assert(r@.subrange(0, n as int) =~= r@);
                proof {
                    let c2 = choose|c2: int| is_last(r@, ':', c2);
                    lemma_last_unique(r@, ':', c as int, c2);
                }
                let ghost package = r@.subrange(0, c as int);
                match find_last_char(r, '/', c) {
                    Some(s) => {
                        proof {
                            let s2 = choose|s2: int| is_last(package, '/', s2);
                            lemma_last_unique(package, '/', s as int, s2);
                            assert(package.subrange(s + 1, package.len() as int) =~= r@.subrange(s + 1, c as int));
                        }
                        Ok(r.substring_char(s + 1, c).to_string())
                    },
                    None => Ok(r.substring_char(0, c).to_string()),
                }
            },
            None => {
                assert(r@.subrange(0, n as int) =~= r@);
                Err(LoaderError::InvalidOciUri(path.to_string()))
            },
        }
    } else {
        match path_file_stem(path) {
            Some(stem) => Ok(stem),
            None => Err(LoaderError::NoComponentName(path.to_string())),
        }
    }
}

/// The definitions of standalone components: each exposed, enabling no
/// one, expecting and intercepting nothing, named after its path.
pub fn create_implicit_component_definitions(paths: &Vec<String>) -> (r: Result<Vec<ComponentDefinition>, LoaderError>)
    ensures
        r matches Ok(defs) ==> {
            &&& defs@.len() == paths@.len()
            &&& forall|k: int| 0 <= k < defs@.len() ==> {
                let d = #[trigger] defs@[k];
                &&& implicit_name(paths@[k]@) == Some(d.name@)
                &&& d.uri_view() == paths@[k]@
                &&& d.enables_view() == "none"@
                &&& d.base.exposed
                &&& d.base.expects@.len() == 0
                &&& d.base.intercepts@.len() == 0
                &&& d.base.precedence == 0
                &&& d.base.config is None
            }
        },
        r is Err ==> exists|k: int| 0 <= k < paths@.len() && implicit_name(#[trigger] paths@[k]@) is None,
{
    let mut defs: Vec<ComponentDefinition> = Vec::new();
    let mut k: usize = 0;
    while k < paths.len()
        invariant
            k <= paths@.len(),
            defs@.len() == k,
            forall|m: int| 0 <= m < k ==> {
                let d = #[trigger] defs@[m];
                &&& implicit_name(paths@[m]@) == Some(d.name@)
                &&& d.uri_view() == paths@[m]@
                &&& d.enables_view() == "none"@
                &&& d.base.exposed
                &&& d.base.expects@.len() == 0
                &&& d.base.intercepts@.len() == 0
                &&& d.base.precedence == 0
                &&& d.base.config is None
            },
        decreases paths@.len() - k,
    {
        let name = match implicit_component_name(paths[k].as_str()) {
            Ok(n) => n,
            Err(e) => {
                return Err(e);
            },
        };
        defs.push(ComponentDefinition {
            name,
            base: ComponentDefinitionBase {
                base: DefinitionBase { uri: paths[k].clone(), enables: default_enables() },
                expects: Vec::new(),
                intercepts: Vec::new(),
                precedence: 0,
                exposed: true,
                config: None,
            },
        });
        k = k + 1;
    }
    Ok(defs)
}

/// Whether a definition URI names a runtime feature rather than a component.
pub open spec fn is_runtime_feature_uri(uri: Seq<char>) -> bool {
    has_prefix(uri, "wasmtime:"@) || has_prefix(uri, "host:"@)
}

/// Whether a manifest entry with this URI defines a runtime feature.
pub fn names_runtime_feature(uri: &str) -> (r: bool)
    ensures
        r == is_runtime_feature_uri(uri@),
{
    starts_with(uri, "wasmtime:") || starts_with(uri, "host:")
}

/// The scopes a runtime feature may have.
pub open spec fn feature_scope_valid(enables: Seq<char>) -> bool {
    scope_of(enables) matches Some(s) && !(s is Package) && !(s is Namespace)
}

/// Checks a runtime feature's scope: package and namespace scopes are for
/// components only.
pub fn validate_runtime_feature_enables_scope(enables: &str, name: &str) -> (r: Result<(), LoaderError>)
    ensures
        r is Ok <==> feature_scope_valid(enables@),
        r matches Err(e) ==> match e {
            LoaderError::RuntimeFeatureScope { name: n, enables: s } => n@ == name@ && s@ == enables@
                && (scope_of(enables@) matches Some(sc) && (sc is Package || sc is Namespace)),
            LoaderError::InvalidScope(s) => s@ == enables@ && scope_of(enables@) is None,
            _ => false,
        },
{
    match parse_enables(enables) {
        Some(EnableScope::Package) | Some(EnableScope::Namespace) => Err(
            LoaderError::RuntimeFeatureScope { name: name.to_string(), enables: enables.to_string() },
        ),
        Some(_) => Ok(()),
        None => Err(LoaderError::InvalidScope(enables.to_string())),
    }
}

/// Checks a component's scope.
pub fn validate_component_enables_scope(enables: &str) -> (r: Result<(), LoaderError>)
    ensures
        r is Ok <==> scope_of(enables@) is Some,
        r matches Err(e) ==> e matches LoaderError::InvalidScope(s) && s@ == enables@,
{
    match parse_enables(enables) {
        Some(_) => Ok(()),
        None => Err(LoaderError::InvalidScope(enables.to_string())),
    }
}

/// The names of all definitions, runtime features first.
pub open spec fn definition_names(
    runtime_features: Seq<RuntimeFeatureDefinition>,
    components: Seq<ComponentDefinition>,
) -> Seq<Seq<char>> {
    runtime_features.map_values(|d: RuntimeFeatureDefinition| d.name@) + components.map_values(|d: ComponentDefinition| d.name@)
}

/// Whether the definitions satisfy every rule the loader checks.
pub open spec fn definitions_valid(
    runtime_features: Seq<RuntimeFeatureDefinition>,
    components: Seq<ComponentDefinition>,
) -> bool {
    let names = definition_names(runtime_features, components);
    &&& forall|k: int| 0 <= k < runtime_features.len() ==> feature_scope_valid(#[trigger] runtime_features[k].enables_view())
    &&& forall|k: int| 0 <= k < components.len() ==> (scope_of(#[trigger] components[k].enables_view()) is Some)
    &&& names.no_duplicates()
    &&& forall|k: int, e: int| #![trigger components[k].base.expects@[e]]
        0 <= k < components.len() && !components[k].base.exposed && 0 <= e < components[k].base.expects@.len()
            ==> names.contains(components[k].base.expects@[e]@)
}

fn name_listed(names: &Vec<String>, name: &str) -> (r: bool)
    ensures
        r == views_of(names@).contains(name@),
{
    let mut i: usize = 0;
    while i < names.len()
        invariant
            i <= names@.len(),
            forall|k: int| 0 <= k < i ==> names@[k]@ != name@,
        decreases names@.len() - i,
    {
        if str_eq(names[i].as_str(), name) {
            assert(views_of(names@)[i as int] == name@);
            return true;
        }
        i = i + 1;
    }
    proof {
        assert forall|k: int| 0 <= k < views_of(names@).len() implies views_of(names@)[k] != name@ by {
            assert(views_of(names@)[k] == names@[k]@);
        }
    }
    false
}

pub open spec fn views_of(v: Seq<String>) -> Seq<Seq<char>> {
    v.map_values(|s: String| s@)
}

/// Checks the definitions read from all files: every scope is valid, every
/// name is used once, and every unexposed component expects only defined
/// names. An exposed component may expect an undefined name: it is skipped
/// later if its imports go unmet.
pub fn validate_definitions(
    runtime_features: &Vec<RuntimeFeatureDefinition>,
    components: &Vec<ComponentDefinition>,
) -> (r: Result<(), LoaderError>)
    ensures
        r is Ok <==> definitions_valid(runtime_features@, components@),
{
    let ghost names_all = definition_names(runtime_features@, components@);
    let nf = runtime_features.len();
    let mut k: usize = 0;
    while k < runtime_features.len()
        invariant
            k <= runtime_features@.len(),
            forall|m: int| 0 <= m < k ==> feature_scope_valid(#[trigger] runtime_features@[m].enables_view()),
        decreases runtime_features@.len() - k,
    {
        let d = &runtime_features[k];
        if let Err(e) = validate_runtime_feature_enables_scope(d.base.enables.as_str(), d.name.as_str()) {
            assert(!feature_scope_valid(runtime_features@[k as int].enables_view()));
            return Err(e);
        }
        k = k + 1;
    }
    let mut k: usize = 0;
    while k < components.len()
        invariant
            k <= components@.len(),
            forall|m: int| 0 <= m < k ==> (scope_of(#[trigger] components@[m].enables_view()) is Some),
        decreases components@.len() - k,
    {
        if let Err(e) = validate_component_enables_scope(components[k].base.base.enables.as_str()) {
            assert(scope_of(components@[k as int].enables_view()) is None);
            return Err(e);
        }
        k = k + 1;
    }
    let mut names: Vec<String> = Vec::new();
    let mut round: usize = 0;
    while round < 2
        invariant
            nf == runtime_features@.len(),
            names_all == definition_names(runtime_features@, components@),
            names_all.len() == nf + components@.len(),
            round <= 2,
            round == 0 ==> names@.len() == 0,
            round == 1 ==> names@.len() == nf,
            round == 2 ==> names@.len() == nf + components@.len(),
            views_of(names@) == names_all.subrange(0, names@.len() as int),
            views_of(names@).no_duplicates(),
        decreases 2 - round,
    {
        let count = if round == 0 { runtime_features.len() } else { components.len() };
        let mut k: usize = 0;
        while k < count
            invariant
                nf == runtime_features@.len(),
                names_all == definition_names(runtime_features@, components@),
                names_all.len() == nf + components@.len(),
                round < 2,
                count == (if round == 0 { nf as nat } else { components@.len() }),
                k <= count,
                names@.len() == (if round == 0 { 0 } else { nf }) + k,
                views_of(names@) == names_all.subrange(0, names@.len() as int),
                views_of(names@).no_duplicates(),
            decreases count - k,
        {
            let name = if round == 0 { &runtime_features[k].name } else { &components[k].name };
            assert(name@ == names_all[names@.len() as int]);
            if name_listed(&names, name.as_str()) {
                proof {
                    let w = choose|w: int| 0 <= w < views_of(names@).len() && views_of(names@)[w] == name@;
                    assert(names_all[w] == names_all[names@.len() as int]);
                }
                return Err(LoaderError::DuplicateName(name.clone()));
            }
            let ghost before = names@.len();
            names.push(name.clone());
            assert(views_of(names@) =~= names_all.subrange(0, before as int + 1));
            k = k + 1;
        }
        round = round + 1;
    }
    assert(names_all.subrange(0, names_all.len() as int) =~= names_all);
    let mut k: usize = 0;
    while k < components.len()
        invariant
            k <= components@.len(),
            names_all == definition_names(runtime_features@, components@),
            views_of(names@) == names_all,
            forall|m: int, e: int| #![trigger components@[m].base.expects@[e]]
                0 <= m < k && !components@[m].base.exposed && 0 <= e < components@[m].base.expects@.len()
                    ==> names_all.contains(components@[m].base.expects@[e]@),
        decreases components@.len() - k,
    {
        let d = &components[k];
        if !d.base.exposed {
            let mut e: usize = 0;
            while e < d.base.expects.len()
                invariant
                    k < components@.len(),
                    *d == components@[k as int],
                    !d.base.exposed,
                    names_all == definition_names(runtime_features@, components@),
                    views_of(names@) == names_all,
                    e <= d.base.expects@.len(),
                    forall|j: int| 0 <= j < e ==> names_all.contains(#[trigger] d.base.expects@[j]@),
                decreases d.base.expects@.len() - e,
            {
                if !name_listed(&names, d.base.expects[e].as_str()) {
                    assert(!names_all.contains(components@[k as int].base.expects@[e as int]@));
                    assert(!components@[k as int].base.exposed);
                    assert(!definitions_valid(runtime_features@, components@));
                    return Err(LoaderError::UndefinedExpectation {
                        component: d.name.clone(),
                        expected: d.base.expects[e].clone(),
                    });
                }
                e = e + 1;
            }
        }
        k = k + 1;
    }
    Ok(())
}

/// The text of an optional string field: its value, or `default` when absent.
pub open spec fn text_field(members: Seq<(String, JsonValue)>, key: Seq<char>, default: Seq<char>) -> Option<Seq<char>> {
    match lookup(members, key) {
        None => Some(default),
        Some(JsonValue::Str(s)) => Some(s@),
        Some(_) => None,
    }
}

/// The strings of an optional array field: its items, or none when absent.
pub open spec fn list_field_ok(members: Seq<(String, JsonValue)>, key: Seq<char>, out: Seq<String>) -> bool {
    match lookup(members, key) {
        None => out.len() == 0,
        Some(JsonValue::Array(items)) => items@.len() == out.len()
            && forall|i: int| 0 <= i < out.len() ==> ((#[trigger] items@[i]) matches JsonValue::Str(s) && s@ == out[i]@),
        Some(_) => false,
    }
}

/// The precedence of a component entry: 0 when absent, else an integer in range.
pub open spec fn precedence_field(members: Seq<(String, JsonValue)>) -> Option<i32> {
    match lookup(members, "precedence"@) {
        None => Some(0),
        Some(JsonValue::Number(JsonNumber::PosInt(u))) => if u <= i32::MAX as u64 { Some(u as i32) } else { None },
        Some(JsonValue::Number(JsonNumber::NegInt(i))) => if i >= i32::MIN as i64 { Some(i as i32) } else { None },
        Some(_) => None,
    }
}

/// Whether a component entry is exposed: false when absent.
pub open spec fn exposed_field(members: Seq<(String, JsonValue)>) -> Option<bool> {
    match lookup(members, "exposed"@) {
        None => Some(false),
        Some(JsonValue::Bool(b)) => Some(b),
        Some(_) => None,
    }
}

/// Whether the entry's `config` is absent, or a table (which `has` says).
pub open spec fn config_field(members: Seq<(String, JsonValue)>) -> Option<bool> {
    match lookup(members, "config"@) {
        None => Some(false),
        Some(JsonValue::Object(_)) => Some(true),
        Some(_) => None,
    }
}

fn text_member(members: &Vec<(String, JsonValue)>, key: &str, default: &str, definition: &String) -> (r: Result<String, LoaderError>)
    ensures
        match r {
            Ok(s) => text_field(members@, key@, default@) == Some(s@),
            Err(e) => text_field(members@, key@, default@) is None && (e matches LoaderError::BadField { definition: d, field: f }
                && d@ == definition@ && f@ == key@),
        },
{
    proof {
        lemma_entry_index(members@, key@);
    }
    match find_entry(members, key) {
        None => Ok(default.to_string()),
        Some(i) => match &members[i].1 {
            JsonValue::Str(s) => Ok(s.clone()),
            _ => Err(LoaderError::BadField { definition: definition.clone(), field: key.to_string() }),
        },
    }
}

fn list_member(members: &Vec<(String, JsonValue)>, key: &str, definition: &String) -> (r: Result<Vec<String>, LoaderError>)
    ensures
        match r {
            Ok(v) => list_field_ok(members@, key@, v@),
            Err(e) => (forall|v: Seq<String>| !list_field_ok(members@, key@, v)) && (e matches LoaderError::BadField { definition: d, field: f }
                && d@ == definition@ && f@ == key@),
        },
{
    proof {
        lemma_entry_index(members@, key@);
    }
    match find_entry(members, key) {
        None => Ok(Vec::new()),
        Some(m) => match &members[m].1 {
            JsonValue::Array(items) => {
                assert(lookup(members@, key@) == Some(members@[m as int].1));
                assert(lookup(members@, key@) == Some(JsonValue::Array(*items)));
                let mut out: Vec<String> = Vec::new();
                let mut i: usize = 0;
                while i < items.len()
                    invariant
                        lookup(members@, key@) == Some(JsonValue::Array(*items)),
                        i <= items@.len(),
                        out@.len() == i,
                        forall|k: int| 0 <= k < i ==> ((#[trigger] items@[k]) matches JsonValue::Str(s) && s@ == out@[k]@),
                    decreases items@.len() - i,
                {
                    match &items[i] {
                        JsonValue::Str(s) => out.push(s.clone()),
                        _ => {
                            assert(!(items@[i as int] is Str));
                            assert forall|v: Seq<String>| !list_field_ok(members@, key@, v) by {
                                if list_field_ok(members@, key@, v) && v.len() == items@.len() {
                                    assert((items@[i as int]) matches JsonValue::Str(s) && s@ == v[i as int]@);
                                }
                            }
                            return Err(LoaderError::BadField { definition: definition.clone(), field: key.to_string() });
                        },
                    }
                    i = i + 1;
                }
                Ok(out)
            },
            _ => {
                assert(lookup(members@, key@) == Some(members@[m as int].1));
                Err(LoaderError::BadField { definition: definition.clone(), field: key.to_string() })
            },
        },
    }
}

/// Whether a manifest entry can be read as a definition: a table with a
/// `uri` string, a string scope if any, a table `config` if any, and for a
/// component, well-typed `expects`, `intercepts`, `precedence` and `exposed`.
pub open spec fn entry_ok(entry: JsonValue) -> bool {
    entry matches JsonValue::Object(members)
        && (lookup(members@, "uri"@) matches Some(JsonValue::Str(uri))
        && text_field(members@, "enables"@, "none"@) is Some
        && config_field(members@) is Some
        && (!is_runtime_feature_uri(uri@) ==> precedence_field(members@) is Some && exposed_field(members@) is Some
            && (exists|v: Seq<String>| list_field_ok(members@, "expects"@, v))
            && (exists|v: Seq<String>| list_field_ok(members@, "intercepts"@, v))))
}

/// Whether an entry's `uri` names a runtime feature.
pub open spec fn entry_is_feature(entry: JsonValue) -> bool {
    entry matches JsonValue::Object(members)
        && (lookup(members@, "uri"@) matches Some(JsonValue::Str(uri)) && is_runtime_feature_uri(uri@))
}

/// The configuration a definition takes from its entry: the members of the
/// entry's `config` table, in order.
pub open spec fn config_from(members: Seq<(String, JsonValue)>, config: Option<Vec<(String, JsonValue)>>) -> bool {
    match lookup(members, "config"@) {
        None => config is None,
        Some(JsonValue::Object(c)) => config == Some(c),
        Some(_) => false,
    }
}

/// `def` is the definition that the entry `name` = `entry` gives.
pub open spec fn defines(name: Seq<char>, entry: JsonValue, def: Definition) -> bool {
    entry matches JsonValue::Object(members) && (lookup(members@, "uri"@) matches Some(JsonValue::Str(uri)) && match def {
        Definition::Feature(f) => {
            &&& is_runtime_feature_uri(uri@)
            &&& f.name@ == name
            &&& f.uri_view() == uri@
            &&& text_field(members@, "enables"@, "none"@) == Some(f.enables_view())
            &&& (config_from(members@, Some(f.config)) || (config_from(members@, None) && f.config@.len() == 0))
        },
        Definition::Component(c) => {
            &&& !is_runtime_feature_uri(uri@)
            &&& c.name@ == name
            &&& c.uri_view() == uri@
            &&& text_field(members@, "enables"@, "none"@) == Some(c.enables_view())
            &&& list_field_ok(members@, "expects"@, c.base.expects@)
            &&& list_field_ok(members@, "intercepts"@, c.base.intercepts@)
            &&& precedence_field(members@) == Some(c.base.precedence)
            &&& exposed_field(members@) == Some(c.base.exposed)
            &&& config_from(members@, c.base.config)
        },
    })
}

/// `e` is an error that the entry `name` = `entry` may be refused with.
pub open spec fn refuses(name: Seq<char>, entry: JsonValue, e: LoaderError) -> bool {
    match e {
        LoaderError::NotATable(n) => n@ == name && !(entry is Object),
        LoaderError::MissingUri(n) => n@ == name && (entry matches JsonValue::Object(members)
            && !(lookup(members@, "uri"@) matches Some(JsonValue::Str(_)))),
        LoaderError::BadField { definition, field } => definition@ == name && !entry_ok(entry),
        _ => false,
    }
}

/// Reads one manifest entry. Its `uri` decides its kind: `wasmtime:` and
/// `host:` URIs define runtime features, any other a component. Absent
/// fields take their defaults (scope `none`, no expectations, precedence 0,
/// not exposed); a field of the wrong type is an error.
pub fn definition_from_entry(name: &String, entry: JsonValue) -> (r: Result<Definition, LoaderError>)
    ensures
        r is Ok <==> entry_ok(entry),
        r matches Ok(def) ==> defines(name@, entry, def),
        r matches Err(e) ==> refuses(name@, entry, e),
{
    let ghost entry0 = entry;
    let mut members = match entry {
        JsonValue::Object(members) => members,
        _ => {
            return Err(LoaderError::NotATable(name.clone()));
        },
    };
    let ghost m0 = members@;
    proof {
        lemma_entry_index(members@, "uri"@);
        lemma_entry_index(members@, "precedence"@);
        lemma_entry_index(members@, "exposed"@);
        lemma_entry_index(members@, "config"@);
    }
    let uri = match find_entry(&members, "uri") {
        Some(i) => match &members[i].1 {
            JsonValue::Str(s) => s.clone(),
            _ => {
                return Err(LoaderError::MissingUri(name.clone()));
            },
        },
        None => {
            return Err(LoaderError::MissingUri(name.clone()));
        },
    };
    let enables = match text_member(&members, "enables", "none", name) {
        Ok(s) => s,
        Err(e) => {
            return Err(e);
        },
    };
    let has_config = match find_entry(&members, "config") {
        None => false,
        Some(i) => match &members[i].1 {
            JsonValue::Object(_) => true,
            _ => {
                return Err(LoaderError::BadField { definition: name.clone(), field: "config".to_string() });
            },
        },
    };
    let is_feature = names_runtime_feature(uri.as_str());
    let (expects, intercepts, precedence, exposed) = if is_feature {
        (Vec::new(), Vec::new(), 0i32, false)
    } else {
        let expects = match list_member(&members, "expects", name) {
            Ok(v) => v,
            Err(e) => {
                return Err(e);
            },
        };
        let intercepts = match list_member(&members, "intercepts", name) {
            Ok(v) => v,
            Err(e) => {
                return Err(e);
            },
        };
        let precedence: i32 = match find_entry(&members, "precedence") {
            None => 0,
            Some(i) => match &members[i].1 {
                JsonValue::Number(JsonNumber::PosInt(u)) if *u <= i32::MAX as u64 => *u as i32,
                JsonValue::Number(JsonNumber::NegInt(n)) if *n >= i32::MIN as i64 => *n as i32,
                _ => {
                    return Err(LoaderError::BadField { definition: name.clone(), field: "precedence".to_string() });
                },
            },
        };
        let exposed = match find_entry(&members, "exposed") {
            None => false,
            Some(i) => match &members[i].1 {
                JsonValue::Bool(b) => *b,
                _ => {
                    return Err(LoaderError::BadField { definition: name.clone(), field: "exposed".to_string() });
                },
            },
        };
        (expects, intercepts, precedence, exposed)
    };
    let config: Vec<(String, JsonValue)> = if has_config {
        match find_entry(&members, "config") {
            Some(i) => {
                let ghost before = members@;
                match members.remove(i).1 {
                    JsonValue::Object(c) => {
                        assert(lookup(m0, "config"@) == Some(JsonValue::Object(c)));
                        c
                    },
                    _ => Vec::new(),
                }
            },
            None => Vec::new(),
        }
    } else {
        Vec::new()
    };
    let base = DefinitionBase { uri, enables };
    if is_feature {
        Ok(Definition::Feature(RuntimeFeatureDefinition { name: name.clone(), base, config }))
    } else {
        Ok(Definition::Component(ComponentDefinition {
            name: name.clone(),
            base: ComponentDefinitionBase {
                base,
                expects,
                intercepts,
                precedence,
                exposed,
                config: if has_config { Some(config) } else { None },
            },
        }))
    }
}

/// The entries whose `uri` names a runtime feature, in order.
pub open spec fn feature_entries(entries: Seq<(String, JsonValue)>) -> Seq<(String, JsonValue)> {
    entries.filter(|e: (String, JsonValue)| entry_is_feature(e.1))
}

/// The entries whose `uri` names a component, in order.
pub open spec fn component_entries(entries: Seq<(String, JsonValue)>) -> Seq<(String, JsonValue)> {
    entries.filter(|e: (String, JsonValue)| !entry_is_feature(e.1))
}

/// `features` and `components` are, in entry order, the definitions the
/// entries give.
pub open spec fn manifest_gives(
    entries: Seq<(String, JsonValue)>,
    features: Seq<RuntimeFeatureDefinition>,
    components: Seq<ComponentDefinition>,
) -> bool {
    &&& features.len() == feature_entries(entries).len()
    &&& forall|i: int| 0 <= i < features.len() ==> defines(feature_entries(entries)[i].0@,
        feature_entries(entries)[i].1, Definition::Feature(#[trigger] features[i]))
    &&& components.len() == component_entries(entries).len()
    &&& forall|i: int| 0 <= i < components.len() ==> defines(component_entries(entries)[i].0@,
        component_entries(entries)[i].1, Definition::Component(#[trigger] components[i]))
}

/// Reads a manifest: a table of named definitions, in order. The first
/// entry that cannot be read decides the error.
pub fn definitions_from_manifest(doc: JsonValue) -> (r: Result<(Vec<RuntimeFeatureDefinition>, Vec<ComponentDefinition>), LoaderError>)
    ensures
        r is Ok <==> (doc matches JsonValue::Object(entries)
            && forall|k: int| 0 <= k < entries@.len() ==> entry_ok(#[trigger] entries@[k].1)),
        r matches Ok(defs) ==> (doc matches JsonValue::Object(entries) && manifest_gives(entries@, defs.0@, defs.1@)),
        r matches Err(e) ==> {
            ||| !(doc is Object) && e is NotATableRoot
            ||| doc matches JsonValue::Object(entries) && exists|k: int| 0 <= k < entries@.len()
                && (forall|j: int| 0 <= j < k ==> entry_ok(#[trigger] entries@[j].1))
                && !entry_ok(entries@[k].1) && refuses(entries@[k].0@, entries@[k].1, e)
        },
{
    let mut entries = match doc {
        JsonValue::Object(entries) => entries,
        _ => {
            return Err(LoaderError::NotATableRoot);
        },
    };
    let ghost all = entries@;
    let n = entries.len();
    let mut features: Vec<RuntimeFeatureDefinition> = Vec::new();
    let mut components: Vec<ComponentDefinition> = Vec::new();
    let mut i: usize = 0;
    while entries.len() > 0
        invariant
            doc == JsonValue::Object(entries_vec_of(doc)),
            all == entries_vec_of(doc)@,
            i + entries@.len() == all.len(),
            all.len() == n,
            entries@ == all.subrange(i as int, all.len() as int),
            forall|j: int| 0 <= j < i ==> entry_ok(#[trigger] all[j].1),
            manifest_gives(all.subrange(0, i as int), features@, components@),
        decreases entries@.len(),
    {
        let (name, entry) = entries.remove(0);
        assert((name, entry) == all[i as int]);
        let ghost pre = all.subrange(0, i as int);
        let ghost post = all.subrange(0, i as int + 1);
        proof {
            reveal(Seq::filter);
            assert(post.drop_last() =~= pre);
            assert(post.last() == all[i as int]);
        }
        match definition_from_entry(&name, entry) {
            Ok(Definition::Feature(f)) => {
                features.push(f);
                proof {
                    assert(entry_is_feature(all[i as int].1));
                    assert(feature_entries(post) == feature_entries(pre).push(all[i as int]));
                    assert(component_entries(post) == component_entries(pre));
                }
            },
            Ok(Definition::Component(c)) => {
                components.push(c);
                proof {
                    assert(!entry_is_feature(all[i as int].1));
                    assert(feature_entries(post) == feature_entries(pre));
                    assert(component_entries(post) == component_entries(pre).push(all[i as int]));
                }
            },
            Err(e) => {
                return Err(e);
            },
        }
        i = i + 1;
        assert(entries@ =~= all.subrange(i as int, all.len() as int));
    }
    assert(all.subrange(0, i as int) =~= all);
    Ok((features, components))
}

/// The members of an object value.
pub open spec fn entries_vec_of(doc: JsonValue) -> Vec<(String, JsonValue)> {
    match doc {
        JsonValue::Object(m) => m,
        _ => arbitrary(),
    }
}

} // verus!
