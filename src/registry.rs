//! Registries of runtime features and of resolved components, and the
//! rules by which a component sees its providers and has its imports met.

use vstd::prelude::*;
use crate::function::Function;
use crate::text::{contains_str, copy_strings, has_prefix, starts_with, str_eq, suffix_from};
use crate::graph::{has_edge, is_component, node_name, node_name_ref, ComponentGraph, Node};
use crate::types::{scope_of, ComponentDefinition, EnableScope, RuntimeFeatureDefinition, parse_enables};

verus! {

/// A runtime feature as registered: its URI, its scope and the interfaces it provides.
#[derive(Debug)]
pub struct RuntimeFeature {
    pub uri: String,
    pub enables: String,
    pub interfaces: Vec<String>,
}

/// Package metadata read from a component.
#[derive(Debug)]
pub struct ComponentMetadata {
    pub namespace: Option<String>,
    pub package: Option<String>,
}

/// A component resolved against its dependencies and runtime features.
#[derive(Debug)]
pub struct ComponentSpec {
    pub name: String,
    pub namespace: Option<String>,
    pub package: Option<String>,
    pub bytes: Vec<u8>,
    pub imports: Vec<String>,
    pub exports: Vec<String>,
    pub runtime_features: Vec<String>,
    pub functions: Option<Vec<Function>>,
}

/// The runtime features, by name.
#[derive(Debug)]
pub struct RuntimeFeatureRegistry {
    pub runtime_features: Vec<(String, RuntimeFeature)>,
}

/// A resolved component that other components may depend on, with the
/// scope under which it does so.
#[derive(Debug)]
pub struct EnablingComponent {
    pub component: ComponentSpec,
    pub exposed: bool,
    pub enables: String,
}

/// The exposed components, and those that enable others, each by name.
#[derive(Debug)]
pub struct ComponentRegistry {
    pub components: Vec<ComponentSpec>,
    pub enabling_components: Vec<(String, EnablingComponent)>,
}

/// Why the registries could not be built.
#[derive(Debug)]
pub enum RegistryError {
    /// A `host:` runtime feature names an extension that was not registered.
    ExtensionMissing { name: String, uri: String },
    /// A component depends on a component that does not enable it.
    DependencyDisabled { component: String, dependency: String },
    /// A component depends on a runtime feature that does not enable it.
    FeatureDisabled { component: String, feature: String },
    /// Imports of a component that nothing provides.
    UnsatisfiedImports { component: String, imports: Vec<String> },
    /// The component's bytes could not be read.
    BytesUnreadable { component: String, message: String },
    /// The component's bytes are not a component that can be read.
    ParseFailed { component: String, message: String },
    /// The component could not be composed with its configuration or a dependency.
    ComposeFailed { component: String, message: String },
}

impl Default for ComponentRegistry {
    fn default() -> (r: Self)
        ensures
            r.wf(),
            r.components@.len() == 0,
            r.enabling_components@.len() == 0,
    {
        Self::empty()
    }
}

/// No two entries share a name.
pub open spec fn keys_unique<T>(entries: Seq<(String, T)>) -> bool {
    forall|i: int, j: int| 0 <= i < entries.len() && 0 <= j < entries.len() && i != j
        ==> (#[trigger] entries[i]).0@ != (#[trigger] entries[j]).0@
}

impl RuntimeFeatureRegistry {
    /// Each runtime feature is registered under one name.
    pub open spec fn wf(&self) -> bool {
        keys_unique(self.runtime_features@)
    }
}

impl ComponentRegistry {
    /// Each component is published, and kept for its dependents, once.
    pub open spec fn wf(&self) -> bool {
        &&& keys_unique(self.enabling_components@)
        &&& forall|i: int, j: int| 0 <= i < self.components@.len() && 0 <= j < self.components@.len() && i != j
            ==> (#[trigger] self.components@[i]).name@ != (#[trigger] self.components@[j]).name@
    }
}

/// The index of the first entry named `name`, or the number of entries.
pub open spec fn entry_index<T>(entries: Seq<(String, T)>, name: Seq<char>) -> int
    decreases entries.len(),
{
    if entries.len() == 0 {
        0
    } else if entries[0].0@ == name {
        0
    } else {
        1 + entry_index(entries.drop_first(), name)
    }
}

pub(crate) proof fn lemma_entry_index<T>(entries: Seq<(String, T)>, name: Seq<char>)
    ensures
        0 <= entry_index(entries, name) <= entries.len(),
        forall|k: int| 0 <= k < entry_index(entries, name) ==> (#[trigger] entries[k]).0@ != name,
        entry_index(entries, name) < entries.len() ==> entries[entry_index(entries, name)].0@ == name,
    decreases entries.len(),
{
    if entries.len() > 0 && entries[0].0@ != name {
        lemma_entry_index(entries.drop_first(), name);
        assert forall|k: int| 0 <= k < entry_index(entries, name) implies (#[trigger] entries[k]).0@ != name by {
            if k > 0 {
                assert(entries[k] == entries.drop_first()[k - 1]);
            }
        }
    }
}

/// The first entry's value named `name`.
pub open spec fn lookup<T>(entries: Seq<(String, T)>, name: Seq<char>) -> Option<T> {
    let i = entry_index(entries, name);
    if 0 <= i < entries.len() {
        Some(entries[i].1)
    } else {
        None
    }
}

/// The position of the first entry named `name`.
pub(crate) fn find_entry<T>(entries: &Vec<(String, T)>, name: &str) -> (r: Option<usize>)
    ensures
        match r {
            Some(i) => i as int == entry_index(entries@, name@) && i < entries@.len(),
            None => entry_index(entries@, name@) == entries@.len(),
        },
{
    proof {
        lemma_entry_index(entries@, name@);
    }
    let mut i: usize = 0;
    while i < entries.len()
        invariant
            i <= entries@.len(),
            0 <= entry_index(entries@, name@) <= entries@.len(),
            entry_index(entries@, name@) < entries@.len() ==> entries@[entry_index(entries@, name@)].0@ == name@,
            forall|k: int| 0 <= k < entry_index(entries@, name@) ==> (#[trigger] entries@[k]).0@ != name@,
            i <= entry_index(entries@, name@),
        decreases entries@.len() - i,
    {
        if str_eq(entries[i].0.as_str(), name) {
            return Some(i);
        }
        i = i + 1;
    }
    None
}

/// Whether a runtime feature is visible to a consumer.
pub open spec fn feature_visible(f: RuntimeFeature, consumer_exposed: bool) -> bool {
    match scope_of(f.enables@) {
        Some(EnableScope::Any) => true,
        Some(EnableScope::Exposed) => consumer_exposed,
        Some(EnableScope::Unexposed) => !consumer_exposed,
        _ => false,
    }
}

pub open spec fn same_text(a: Option<String>, b: Option<String>) -> bool {
    match (a, b) {
        (Some(x), Some(y)) => x@ == y@,
        _ => false,
    }
}

/// Whether a component that enables others is visible to a consumer with
/// the given exposure and metadata.
pub open spec fn component_visible(e: EnablingComponent, consumer_exposed: bool, metadata: ComponentMetadata) -> bool {
    match scope_of(e.enables@) {
        Some(EnableScope::Any) => true,
        Some(EnableScope::Exposed) => consumer_exposed,
        Some(EnableScope::Unexposed) => !consumer_exposed,
        Some(EnableScope::Package) => same_text(metadata.package, e.component.package),
        Some(EnableScope::Namespace) => same_text(metadata.namespace, e.component.namespace),
        _ => false,
    }
}

fn same_text_exec(a: &Option<String>, b: &Option<String>) -> (r: bool)
    ensures
        r == same_text(*a, *b),
{
    match (a, b) {
        (Some(x), Some(y)) => str_eq(x.as_str(), y.as_str()),
        _ => false,
    }
}

impl RuntimeFeatureRegistry {
    pub fn new(runtime_features: Vec<(String, RuntimeFeature)>) -> (r: Self)
        ensures
            r.runtime_features == runtime_features,
    {
        RuntimeFeatureRegistry { runtime_features }
    }

    /// The runtime feature named `name`.
    pub fn get_runtime_feature(&self, name: &str) -> (r: Option<&RuntimeFeature>)
        ensures
            match r {
                Some(f) => lookup(self.runtime_features@, name@) == Some(*f),
                None => lookup(self.runtime_features@, name@) is None,
            },
    {
        match find_entry(&self.runtime_features, name) {
            Some(i) => Some(&self.runtime_features[i].1),
            None => None,
        }
    }

    /// The runtime feature named `feature_name`, if its scope lets
    /// `requesting_component` see it.
    pub fn get_enabled_runtime_feature(
        &self,
        requesting_component: &ComponentDefinition,
        feature_name: &str,
    ) -> (r: Option<&RuntimeFeature>)
        ensures
            match r {
                Some(f) => lookup(self.runtime_features@, feature_name@) == Some(*f)
                    && feature_visible(*f, requesting_component.base.exposed),
                None => !(lookup(self.runtime_features@, feature_name@) matches Some(f)
                    && feature_visible(f, requesting_component.base.exposed)),
            },
    {
        match self.get_runtime_feature(feature_name) {
            Some(f) => {
                let visible = match parse_enables(f.enables.as_str()) {
                    Some(EnableScope::Any) => true,
                    Some(EnableScope::Exposed) => requesting_component.base.exposed,
                    Some(EnableScope::Unexposed) => !requesting_component.base.exposed,
                    _ => false,
                };
                if visible { Some(f) } else { None }
            },
            None => None,
        }
    }
}

impl ComponentRegistry {
    fn new(
        components: Vec<ComponentSpec>,
        enabling_components: Vec<(String, EnablingComponent)>,
    ) -> (r: Self)
        ensures
            r.components == components,
            r.enabling_components == enabling_components,
    {
        ComponentRegistry { components, enabling_components }
    }

    /// A registry with no components.
    pub fn empty() -> (r: Self)
        ensures
            r.wf(),
            r.components@.len() == 0,
            r.enabling_components@.len() == 0,
    {
        Self::new(Vec::new(), Vec::new())
    }

    /// The exposed components.
    pub fn get_components(&self) -> (r: &Vec<ComponentSpec>)
        ensures
            r == &self.components,
    {
        &self.components
    }

    /// The exposed component named `name`.
    pub fn get_component(&self, name: &str) -> (r: Option<&ComponentSpec>)
        ensures
            match r {
                Some(c) => c.name@ == name@ && self.components@.contains(*c),
                None => forall|k: int| 0 <= k < self.components@.len() ==> (#[trigger] self.components@[k]).name@ != name@,
            },
    {
        let mut i: usize = 0;
        while i < self.components.len()
            invariant
                i <= self.components@.len(),
                forall|k: int| 0 <= k < i ==> (#[trigger] self.components@[k]).name@ != name@,
            decreases self.components@.len() - i,
        {
            if str_eq(self.components[i].name.as_str(), name) {
                assert(self.components@[i as int] == self.components[i as int]);
                return Some(&self.components[i]);
            }
            i = i + 1;
        }
        None
    }

    /// The component named `dependency_name`, if it enables others and its
    /// scope lets `requesting_component` (with the given metadata) see it.
    pub fn get_enabled_component_dependency(
        &self,
        requesting_component: &ComponentDefinition,
        requesting_metadata: &ComponentMetadata,
        dependency_name: &str,
    ) -> (r: Option<&ComponentSpec>)
        ensures
            match r {
                Some(c) => lookup(self.enabling_components@, dependency_name@) matches Some(e)
                    && component_visible(e, requesting_component.base.exposed, *requesting_metadata)
                    && *c == e.component,
                None => !(lookup(self.enabling_components@, dependency_name@) matches Some(e)
                    && component_visible(e, requesting_component.base.exposed, *requesting_metadata)),
            },
    {
        match find_entry(&self.enabling_components, dependency_name) {
            Some(i) => {
                let e = &self.enabling_components[i].1;
                let visible = match parse_enables(e.enables.as_str()) {
                    Some(EnableScope::Any) => true,
                    Some(EnableScope::Exposed) => requesting_component.base.exposed,
                    Some(EnableScope::Unexposed) => !requesting_component.base.exposed,
                    Some(EnableScope::Package) => same_text_exec(&requesting_metadata.package, &e.component.package),
                    Some(EnableScope::Namespace) => same_text_exec(&requesting_metadata.namespace, &e.component.namespace),
                    _ => false,
                };
                if visible { Some(&e.component) } else { None }
            },
            None => None,
        }
    }
}

/// The interfaces a built-in runtime feature provides, by its URI.
pub open spec fn builtin_interfaces(uri: Seq<char>) -> Seq<Seq<char>> {
    if uri == "wasmtime:http"@ {
        seq!["wasi:http/outgoing-handler@0.2.12"@, "wasi:http/types@0.2.12"@]
    } else if uri == "wasmtime:io"@ {
        seq!["wasi:io/error@0.2.12"@, "wasi:io/poll@0.2.12"@, "wasi:io/streams@0.2.12"@]
    } else if uri == "wasmtime:random"@ {
        seq!["wasi:random/random@0.2.12"@, "wasi:random/insecure-seed@0.2.12"@]
    } else if uri == "wasmtime:inherit-stdio"@ {
        seq!["wasi:cli/stdin@0.2.12"@, "wasi:cli/stdout@0.2.12"@, "wasi:cli/stderr@0.2.12"@]
    } else if uri == "wasmtime:inherit-network"@ {
        seq!["wasi:sockets/tcp@0.2.12"@, "wasi:sockets/udp@0.2.12"@, "wasi:sockets/network@0.2.12"@, "wasi:sockets/instance-network@0.2.12"@]
    } else if uri == "wasmtime:allow-ip-name-lookup"@ {
        seq!["wasi:sockets/ip-name-lookup@0.2.12"@]
    } else if uri == "wasmtime:wasip2"@ {
        seq!["wasi:cli/environment@0.2.12"@, "wasi:cli/exit@0.2.12"@, "wasi:cli/stderr@0.2.12"@, "wasi:cli/stdin@0.2.12"@, "wasi:cli/stdout@0.2.12"@, "wasi:clocks/monotonic-clock@0.2.12"@, "wasi:clocks/wall-clock@0.2.12"@, "wasi:filesystem/preopens@0.2.12"@, "wasi:filesystem/types@0.2.12"@, "wasi:io/error@0.2.12"@, "wasi:io/poll@0.2.12"@, "wasi:io/streams@0.2.12"@, "wasi:random/random@0.2.12"@, "wasi:random/insecure-seed@0.2.12"@, "wasi:sockets/tcp@0.2.12"@, "wasi:sockets/udp@0.2.12"@, "wasi:sockets/network@0.2.12"@, "wasi:sockets/instance-network@0.2.12"@, "wasi:sockets/ip-name-lookup@0.2.12"@, "wasi:sockets/tcp-create-socket@0.2.12"@, "wasi:sockets/udp-create-socket@0.2.12"@]
    } else {
        Seq::empty()
    }
}

/// The interfaces a built-in runtime feature provides; none for an unknown URI.
pub fn get_interfaces_for_runtime_feature(uri: &str) -> (r: Vec<String>)
    ensures
        r@.map_values(|s: String| s@) == builtin_interfaces(uri@),
{
    let mut r: Vec<String> = Vec::new();
    if str_eq(uri, "wasmtime:http") {
        r.push("wasi:http/outgoing-handler@0.2.12".to_string());
        r.push("wasi:http/types@0.2.12".to_string());
        assert(r@.map_values(|s: String| s@) =~= builtin_interfaces(uri@));
    } else if str_eq(uri, "wasmtime:io") {
        r.push("wasi:io/error@0.2.12".to_string());
        r.push("wasi:io/poll@0.2.12".to_string());
        r.push("wasi:io/streams@0.2.12".to_string());
        assert(r@.map_values(|s: String| s@) =~= builtin_interfaces(uri@));
    } else if str_eq(uri, "wasmtime:random") {
        r.push("wasi:random/random@0.2.12".to_string());
        r.push("wasi:random/insecure-seed@0.2.12".to_string());
        assert(r@.map_values(|s: String| s@) =~= builtin_interfaces(uri@));
    } else if str_eq(uri, "wasmtime:inherit-stdio") {
        r.push("wasi:cli/stdin@0.2.12".to_string());
        r.push("wasi:cli/stdout@0.2.12".to_string());
        r.push("wasi:cli/stderr@0.2.12".to_string());
        assert(r@.map_values(|s: String| s@) =~= builtin_interfaces(uri@));
    } else if str_eq(uri, "wasmtime:inherit-network") {
        r.push("wasi:sockets/tcp@0.2.12".to_string());
        r.push("wasi:sockets/udp@0.2.12".to_string());
        r.push("wasi:sockets/network@0.2.12".to_string());
        r.push("wasi:sockets/instance-network@0.2.12".to_string());
        assert(r@.map_values(|s: String| s@) =~= builtin_interfaces(uri@));
    } else if str_eq(uri, "wasmtime:allow-ip-name-lookup") {
        r.push("wasi:sockets/ip-name-lookup@0.2.12".to_string());
        assert(r@.map_values(|s: String| s@) =~= builtin_interfaces(uri@));
    } else if str_eq(uri, "wasmtime:wasip2") {
        r.push("wasi:cli/environment@0.2.12".to_string());
        r.push("wasi:cli/exit@0.2.12".to_string());
        r.push("wasi:cli/stderr@0.2.12".to_string());
        r.push("wasi:cli/stdin@0.2.12".to_string());
        r.push("wasi:cli/stdout@0.2.12".to_string());
        r.push("wasi:clocks/monotonic-clock@0.2.12".to_string());
        r.push("wasi:clocks/wall-clock@0.2.12".to_string());
        r.push("wasi:filesystem/preopens@0.2.12".to_string());
        r.push("wasi:filesystem/types@0.2.12".to_string());
        r.push("wasi:io/error@0.2.12".to_string());
        r.push("wasi:io/poll@0.2.12".to_string());
        r.push("wasi:io/streams@0.2.12".to_string());
        r.push("wasi:random/random@0.2.12".to_string());
        r.push("wasi:random/insecure-seed@0.2.12".to_string());
        r.push("wasi:sockets/tcp@0.2.12".to_string());
        r.push("wasi:sockets/udp@0.2.12".to_string());
        r.push("wasi:sockets/network@0.2.12".to_string());
        r.push("wasi:sockets/instance-network@0.2.12".to_string());
        r.push("wasi:sockets/ip-name-lookup@0.2.12".to_string());
        r.push("wasi:sockets/tcp-create-socket@0.2.12".to_string());
        r.push("wasi:sockets/udp-create-socket@0.2.12".to_string());
        assert(r@.map_values(|s: String| s@) =~= builtin_interfaces(uri@));
    } else {
        assert(r@.map_values(|s: String| s@) =~= builtin_interfaces(uri@));
    }
    r
}

pub open spec fn is_digit(c: char) -> bool {
    '0' <= c && c <= '9'
}

pub open spec fn pow10(k: nat) -> nat
    decreases k,
{
    if k == 0 { 1 } else { 10 * pow10((k - 1) as nat) }
}

/// The value of a string of decimal digits.
pub open spec fn digits_value(s: Seq<char>) -> nat
    decreases s.len(),
{
    if s.len() == 0 {
        0
    } else {
        (10 * digits_value(s.drop_last()) + s.last() as u32 - 48) as nat
    }
}

/// A version number: one to eighteen decimal digits.
pub open spec fn is_number(s: Seq<char>) -> bool {
    1 <= s.len() <= 18 && forall|i: int| 0 <= i < s.len() ==> is_digit(#[trigger] s[i])
}

/// `k` is the position of the first `c` in `s`.
pub open spec fn is_first(s: Seq<char>, c: char, k: int) -> bool {
    0 <= k < s.len() && s[k] == c && forall|j: int| 0 <= j < k ==> s[j] != c
}

/// `k` is the position of the last `c` in `s`.
pub open spec fn is_last(s: Seq<char>, c: char, k: int) -> bool {
    0 <= k < s.len() && s[k] == c && forall|j: int| k < j < s.len() ==> s[j] != c
}

/// The three numbers of a `major.minor.patch` version.
pub open spec fn version_of(v: Seq<char>) -> Option<(nat, nat, nat)> {
    if exists|d1: int| is_first(v, '.', d1) {
        let d1 = choose|d1: int| is_first(v, '.', d1);
        let rest = v.subrange(d1 + 1, v.len() as int);
        if exists|d2: int| is_first(rest, '.', d2) {
            let d2 = choose|d2: int| is_first(rest, '.', d2);
            let a = v.subrange(0, d1);
            let b = rest.subrange(0, d2);
            let c = rest.subrange(d2 + 1, rest.len() as int);
            if is_number(a) && is_number(b) && is_number(c) {
                Some((digits_value(a), digits_value(b), digits_value(c)))
            } else {
                None
            }
        } else {
            None
        }
    } else {
        None
    }
}

/// An interface id `<name>@<major>.<minor>.<patch>` split into its name and version.
pub open spec fn interface_version(s: Seq<char>) -> Option<(Seq<char>, (nat, nat, nat))> {
    if exists|at: int| is_last(s, '@', at) {
        let at = choose|at: int| is_last(s, '@', at);
        match version_of(s.subrange(at + 1, s.len() as int)) {
            Some(v) => Some((s.subrange(0, at), v)),
            None => None,
        }
    } else {
        None
    }
}

/// Whether a provided interface meets an import: the same id, or the same
/// name and major and minor version with a patch version at least as high.
pub open spec fn satisfies(provided: Seq<char>, import: Seq<char>) -> bool {
    provided == import || (interface_version(import) matches Some((n, (a, b, c)))
        && interface_version(provided) matches Some((m, (x, y, z)))
        && n == m && x == a && y == b && z >= c)
}

/// Whether some interface of `provided` meets `import`.
pub open spec fn import_satisfied(import: Seq<char>, provided: Seq<Seq<char>>) -> bool {
    exists|k: int| 0 <= k < provided.len() && satisfies(#[trigger] provided[k], import)
}

pub open spec fn views(v: Seq<String>) -> Seq<Seq<char>> {
    v.map_values(|s: String| s@)
}

pub(crate) proof fn lemma_first_unique(s: Seq<char>, c: char, k1: int, k2: int)
    requires
        is_first(s, c, k1),
        is_first(s, c, k2),
    ensures
        k1 == k2,
{
    if k1 < k2 {
        assert(s[k1] != c);
    } else if k2 < k1 {
        assert(s[k2] != c);
    }
}

pub(crate) proof fn lemma_last_unique(s: Seq<char>, c: char, k1: int, k2: int)
    requires
        is_last(s, c, k1),
        is_last(s, c, k2),
    ensures
        k1 == k2,
{
    if k1 < k2 {
        assert(s[k2] != c);
    } else if k2 < k1 {
        assert(s[k1] != c);
    }
}

/// The position of the first `c` in `s` at or after `from` and before `to`.
pub(crate) fn find_first(s: &str, c: char, from: usize, to: usize) -> (r: Option<usize>)
    requires
        from <= to <= s@.len(),
    ensures
        match r {
            Some(k) => from <= k < to && is_first(s@.subrange(from as int, to as int), c, k - from),
            None => !exists|k: int| is_first(s@.subrange(from as int, to as int), c, k),
        },
{
    let ghost t = s@.subrange(from as int, to as int);
    let mut i: usize = from;
    while i < to
        invariant
            from <= i <= to <= s@.len(),
            t == s@.subrange(from as int, to as int),
            forall|j: int| 0 <= j < i - from ==> t[j] != c,
        decreases to - i,
    {
        if s.get_char(i) == c {
            assert(t[i - from] == c);
            return Some(i);
        }
        i = i + 1;
    }
    proof {
        assert forall|k: int| !is_first(t, c, k) by {
            if 0 <= k < t.len() {
                assert(t[k] != c);
            }
        }
    }
    None
}

/// The position of the last `c` in `s`.
fn find_last(s: &str, c: char) -> (r: Option<usize>)
    ensures
        match r {
            Some(k) => is_last(s@, c, k as int),
            None => !exists|k: int| is_last(s@, c, k),
        },
{
    let mut i: usize = s.unicode_len();
    while i > 0
        invariant
            i <= s@.len(),
            forall|j: int| i <= j < s@.len() ==> s@[j] != c,
        decreases i,
    {
        if s.get_char(i - 1) == c {
            return Some(i - 1);
        }
        i = i - 1;
    }
    proof {
        assert forall|k: int| !is_last(s@, c, k) by {
            if 0 <= k < s@.len() {
                assert(s@[k] != c);
            }
        }
    }
    None
}

/// The value of the digits of `s` from `from` up to `to`, if they form a version number.
fn parse_number(s: &str, from: usize, to: usize) -> (r: Option<u64>)
    requires
        from <= to <= s@.len(),
    ensures
        match r {
            Some(v) => is_number(s@.subrange(from as int, to as int)) && v as nat == digits_value(s@.subrange(from as int, to as int)),
            None => !is_number(s@.subrange(from as int, to as int)),
        },
{
    let ghost t = s@.subrange(from as int, to as int);
    if to == from || to - from > 18 {
        return None;
    }
    let mut value: u64 = 0;
    let mut i: usize = from;
    proof {
        lemma_pow10_mono(0, 18);
        assert(t.subrange(0, 0).len() == 0);
        assert(pow10(0) == 1);
    }
    while i < to
        invariant
            from <= i <= to <= s@.len(),
            to - from <= 18,
            t == s@.subrange(from as int, to as int),
            forall|j: int| 0 <= j < i - from ==> is_digit(#[trigger] t[j]),
            value as nat == digits_value(t.subrange(0, i - from)),
            value < pow10((i - from) as nat),
            pow10((i - from) as nat) <= pow10(18),
        decreases to - i,
    {
        let ch = s.get_char(i);
        if !('0' <= ch && ch <= '9') {
            assert(!is_digit(t[i - from]));
            return None;
        }
        let d = (ch as u32 - '0' as u32) as u64;
        proof {
            let k = (i - from) as nat;
            assert(t.subrange(0, k as int + 1).drop_last() =~= t.subrange(0, k as int));
            assert(t.subrange(0, k as int + 1).last() == ch);
            assert(pow10(k + 1) == 10 * pow10(k));
            reveal_with_fuel(pow10, 19);
            assert(pow10(18) == 1000000000000000000nat);
            if k + 1 <= 18 {
                lemma_pow10_mono((k + 1) as nat, 18);
            }
            assert(value * 10 + d < 10 * pow10(k)) by (nonlinear_arith)
                requires value < pow10(k), d <= 9;
        }
        value = value * 10 + d;
        i = i + 1;
    }
    assert(t.subrange(0, t.len() as int) =~= t);
    Some(value)
}

proof fn lemma_pow10_mono(a: nat, b: nat)
    requires
        a <= b,
    ensures
        pow10(a) <= pow10(b),
    decreases b - a,
{
    if a < b {
        lemma_pow10_mono(a, (b - 1) as nat);
    }
}

/// Reads an interface id as its name's end and its version.
fn parse_interface_id(s: &str) -> (r: Option<(usize, (u64, u64, u64))>)
    ensures
        match r {
            Some((at, (a, b, c))) => at <= s@.len() && interface_version(s@) == Some((s@.subrange(0, at as int), (a as nat, b as nat, c as nat))),
            None => interface_version(s@) is None,
        },
{
    let n = s.unicode_len();
    let at = match find_last(s, '@') {
        Some(at) => at,
        None => {
            return None;
        },
    };
    proof {
        let at2 = choose|k: int| is_last(s@, '@', k);
        lemma_last_unique(s@, '@', at as int, at2);
    }
    let ghost v = s@.subrange(at + 1, n as int);
    let d1 = match find_first(s, '.', at + 1, n) {
        Some(d) => d,
        None => {
            return None;
        },
    };
    proof {
        let k = choose|k: int| is_first(v, '.', k);
        lemma_first_unique(v, '.', (d1 - (at + 1)) as int, k);
    }
    let ghost rest = v.subrange(d1 - at, v.len() as int);
    assert(rest =~= s@.subrange(d1 + 1, n as int));
    let d2 = match find_first(s, '.', d1 + 1, n) {
        Some(d) => d,
        None => {
            return None;
        },
    };
    proof {
        let k = choose|k: int| is_first(rest, '.', k);
        lemma_first_unique(rest, '.', (d2 - (d1 + 1)) as int, k);
        assert(v.subrange(0, d1 - (at + 1)) =~= s@.subrange(at + 1, d1 as int));
        assert(rest.subrange(0, d2 - (d1 + 1)) =~= s@.subrange(d1 + 1, d2 as int));
        assert(rest.subrange(d2 - d1, rest.len() as int) =~= s@.subrange(d2 + 1, n as int));
    }
    let a = parse_number(s, at + 1, d1);
    let b = parse_number(s, d1 + 1, d2);
    let c = parse_number(s, d2 + 1, n);
    match (a, b, c) {
        (Some(a), Some(b), Some(c)) => Some((at, (a, b, c))),
        _ => None,
    }
}

/// Whether the provided interface meets the import.
fn satisfies_exec(provided: &str, import: &str) -> (r: bool)
    ensures
        r == satisfies(provided@, import@),
{
    if str_eq(provided, import) {
        return true;
    }
    match (parse_interface_id(import), parse_interface_id(provided)) {
        (Some((i_at, (a, b, c))), Some((p_at, (x, y, z)))) => {
            let same_name = str_eq(import.substring_char(0, i_at), provided.substring_char(0, p_at));
            same_name && x == a && y == b && z >= c
        },
        _ => false,
    }
}

/// Whether some provided interface meets the import.
pub fn is_import_satisfied(import: &str, provided: &Vec<String>) -> (r: bool)
    ensures
        r == import_satisfied(import@, views(provided@)),
{
    let mut k: usize = 0;
    while k < provided.len()
        invariant
            k <= provided@.len(),
            forall|m: int| 0 <= m < k ==> !satisfies(#[trigger] views(provided@)[m], import@),
        decreases provided@.len() - k,
    {
        if satisfies_exec(provided[k].as_str(), import) {
            assert(satisfies(views(provided@)[k as int], import@));
            return true;
        }
        k = k + 1;
    }
    false
}

/// The imports that no provided interface meets, in order.
pub fn unsatisfied_imports(imports: &Vec<String>, provided: &Vec<String>) -> (r: Vec<String>)
    ensures
        views(r@) == views(imports@).filter(|i: Seq<char>| !import_satisfied(i, views(provided@))),
{
    let ghost pred = |i: Seq<char>| !import_satisfied(i, views(provided@));
    let mut r: Vec<String> = Vec::new();
    let mut k: usize = 0;
    while k < imports.len()
        invariant
            k <= imports@.len(),
            pred == (|i: Seq<char>| !import_satisfied(i, views(provided@))),
            views(r@) == views(imports@).subrange(0, k as int).filter(pred),
        decreases imports@.len() - k,
    {
        let keep = !is_import_satisfied(imports[k].as_str(), provided);
        proof {
            reveal(Seq::filter);
            assert(views(imports@).subrange(0, k + 1).drop_last() =~= views(imports@).subrange(0, k as int));
        }
        if keep {
            r.push(imports[k].clone());
            assert(views(r@) =~= views(imports@).subrange(0, k + 1).filter(pred));
        } else {
            assert(views(r@) =~= views(imports@).subrange(0, k + 1).filter(pred));
        }
        k = k + 1;
    }
    assert(views(imports@).subrange(0, imports@.len() as int) =~= views(imports@));
    r
}

/// Meeting an import stays possible when more interfaces are provided.
pub proof fn lemma_import_satisfaction_monotone(import: Seq<char>, provided: Seq<Seq<char>>, more: Seq<Seq<char>>)
    requires
        forall|k: int| 0 <= k < provided.len() ==> more.contains(#[trigger] provided[k]),
        import_satisfied(import, provided),
    ensures
        import_satisfied(import, more),
{
    let k = choose|k: int| 0 <= k < provided.len() && satisfies(#[trigger] provided[k], import);
    assert(more.contains(provided[k]));
    let j = choose|j: int| 0 <= j < more.len() && more[j] == provided[k];
    assert(satisfies(more[j], import));
}

/// The interfaces a runtime feature provides: those its host extension
/// advertises for a `host:<name>` URI (none if no extension has that name),
/// the built-in ones otherwise.
pub open spec fn feature_interfaces(uri: Seq<char>, hosts: Seq<(String, Vec<String>)>) -> Option<Seq<Seq<char>>> {
    if has_prefix(uri, "host:"@) {
        match lookup(hosts, uri.subrange("host:"@.len() as int, uri.len() as int)) {
            Some(ifaces) => Some(views(ifaces@)),
            None => None,
        }
    } else {
        Some(builtin_interfaces(uri))
    }
}

/// Registers each runtime feature under its name, with the interfaces it
/// provides. `host_extensions` holds the interfaces of each registered
/// host extension, by name.
pub fn create_runtime_feature_registry(
    runtime_feature_definitions: &Vec<RuntimeFeatureDefinition>,
    host_extensions: &Vec<(String, Vec<String>)>,
) -> (r: Result<RuntimeFeatureRegistry, RegistryError>)
    ensures
        r is Ok <==> forall|k: int| 0 <= k < runtime_feature_definitions@.len()
            ==> (feature_interfaces((#[trigger] runtime_feature_definitions@[k]).uri_view(), host_extensions@) is Some),
        r matches Ok(reg) ==> {
            &&& reg.runtime_features@.len() == runtime_feature_definitions@.len()
            &&& forall|k: int| 0 <= k < reg.runtime_features@.len() ==> {
                let (name, f) = #[trigger] reg.runtime_features@[k];
                let d = runtime_feature_definitions@[k];
                &&& name@ == d.name@
                &&& f.uri@ == d.uri_view()
                &&& f.enables@ == d.enables_view()
                &&& Some(views(f.interfaces@)) == feature_interfaces(d.uri_view(), host_extensions@)
            }
        },
        r matches Ok(reg) ==> ((forall|i: int, j: int| 0 <= i < runtime_feature_definitions@.len()
            && 0 <= j < runtime_feature_definitions@.len() && i != j
            ==> (#[trigger] runtime_feature_definitions@[i]).name@ != (#[trigger] runtime_feature_definitions@[j]).name@) ==> reg.wf()),
        r matches Err(e) ==> e matches RegistryError::ExtensionMissing { name, uri } && exists|k: int|
            0 <= k < runtime_feature_definitions@.len() && (#[trigger] runtime_feature_definitions@[k]).name@ == name@
            && runtime_feature_definitions@[k].uri_view() == uri@
            && feature_interfaces(runtime_feature_definitions@[k].uri_view(), host_extensions@) is None,
{
    let mut entries: Vec<(String, RuntimeFeature)> = Vec::new();
    let mut k: usize = 0;
    while k < runtime_feature_definitions.len()
        invariant
            k <= runtime_feature_definitions@.len(),
            entries@.len() == k,
            forall|m: int| 0 <= m < k ==> (feature_interfaces((#[trigger] runtime_feature_definitions@[m]).uri_view(), host_extensions@) is Some),
            forall|m: int| 0 <= m < k ==> {
                let (name, f) = #[trigger] entries@[m];
                let d = runtime_feature_definitions@[m];
                &&& name@ == d.name@
                &&& f.uri@ == d.uri_view()
                &&& f.enables@ == d.enables_view()
                &&& Some(views(f.interfaces@)) == feature_interfaces(d.uri_view(), host_extensions@)
            },
        decreases runtime_feature_definitions@.len() - k,
    {
        let def = &runtime_feature_definitions[k];
        let uri = def.base.uri.as_str();
        let interfaces = if starts_with(uri, "host:") {
            let prefix_len = "host:".unicode_len();
            let name = suffix_from(uri, prefix_len);
            match find_entry(host_extensions, name.as_str()) {
                Some(i) => {
                    let r = copy_strings(&host_extensions[i].1);
                    assert(lookup(host_extensions@, name@) == Some(host_extensions@[i as int].1));
                    assert(views(r@) == views(host_extensions@[i as int].1@));
                    r
                },
                None => {
                    let name = def.name.clone();
                    let uri = def.base.uri.clone();
                    assert(feature_interfaces(runtime_feature_definitions@[k as int].uri_view(), host_extensions@) is None);
                    assert(runtime_feature_definitions@[k as int].name@ == name@ && runtime_feature_definitions@[k as int].uri_view() == uri@);
                    return Err(RegistryError::ExtensionMissing { name, uri });
                },
            }
        } else {
            let r = get_interfaces_for_runtime_feature(uri);
            assert(views(r@) == builtin_interfaces(uri@));
            r
        };
        let feature = RuntimeFeature {
            uri: def.base.uri.clone(),
            enables: def.base.enables.clone(),
            interfaces,
        };
        entries.push((def.name.clone(), feature));
        k = k + 1;
    }
    Ok(RuntimeFeatureRegistry::new(entries))
}

/// The import prefix of the configuration interface.
pub open spec fn config_prefix() -> Seq<char> {
    "wasi:config/store"@
}

pub open spec fn is_config_import(i: Seq<char>) -> bool {
    has_prefix(i, config_prefix())
}

/// Whether any import is of the configuration interface, and the imports
/// that are not, in order.
pub fn strip_config_imports(imports: &Vec<String>) -> (r: (bool, Vec<String>))
    ensures
        r.0 == exists|k: int| 0 <= k < imports@.len() && is_config_import(#[trigger] imports@[k]@),
        views(r.1@) == views(imports@).filter(|i: Seq<char>| !is_config_import(i)),
{
    let ghost pred = |i: Seq<char>| !is_config_import(i);
    let mut found = false;
    let mut rest: Vec<String> = Vec::new();
    let mut k: usize = 0;
    while k < imports.len()
        invariant
            k <= imports@.len(),
            pred == (|i: Seq<char>| !is_config_import(i)),
            found == exists|m: int| 0 <= m < k && is_config_import(#[trigger] imports@[m]@),
            views(rest@) == views(imports@).subrange(0, k as int).filter(pred),
        decreases imports@.len() - k,
    {
        let is_config = starts_with(imports[k].as_str(), "wasi:config/store");
        proof {
            reveal(Seq::filter);
            assert(views(imports@).subrange(0, k + 1).drop_last() =~= views(imports@).subrange(0, k as int));
        }
        if is_config {
            found = true;
            assert(views(rest@) =~= views(imports@).subrange(0, k + 1).filter(pred));
        } else {
            rest.push(imports[k].clone());
            assert(views(rest@) =~= views(imports@).subrange(0, k + 1).filter(pred));
        }
        k = k + 1;
    }
    assert(views(imports@).subrange(0, imports@.len() as int) =~= views(imports@));
    (found, rest)
}

/// The imports that `exports` does not list, in order.
pub fn remove_exported(imports: &Vec<String>, exports: &Vec<String>) -> (r: Vec<String>)
    ensures
        views(r@) == views(imports@).filter(|i: Seq<char>| !views(exports@).contains(i)),
{
    let ghost pred = |i: Seq<char>| !views(exports@).contains(i);
    let mut rest: Vec<String> = Vec::new();
    let mut k: usize = 0;
    while k < imports.len()
        invariant
            k <= imports@.len(),
            pred == (|i: Seq<char>| !views(exports@).contains(i)),
            views(rest@) == views(imports@).subrange(0, k as int).filter(pred),
        decreases imports@.len() - k,
    {
        let listed = contains_str(exports, imports[k].as_str());
        proof {
            reveal(Seq::filter);
            assert(views(imports@).subrange(0, k + 1).drop_last() =~= views(imports@).subrange(0, k as int));
            if listed {
                let m = choose|m: int| 0 <= m < exports@.len() && exports@[m]@ == imports@[k as int]@;
                assert(views(exports@)[m] == imports@[k as int]@);
            } else {
                assert forall|m: int| 0 <= m < views(exports@).len() implies views(exports@)[m] != imports@[k as int]@ by {
                    assert(exports@[m]@ != imports@[k as int]@);
                }
            }
        }
        if !listed {
            rest.push(imports[k].clone());
        }
        assert(views(rest@) =~= views(imports@).subrange(0, k + 1).filter(pred));
        k = k + 1;
    }
    assert(views(imports@).subrange(0, imports@.len() as int) =~= views(imports@));
    rest
}

/// Appends `name` unless `names` already lists it.
fn add_name(names: &mut Vec<String>, name: &String)
    ensures
        views(final(names)@).contains(name@),
        forall|k: int| 0 <= k < old(names)@.len() ==> views(final(names)@).contains(#[trigger] old(names)@[k]@),
        forall|k: int| 0 <= k < final(names)@.len() ==> (#[trigger] final(names)@[k])@ == name@ || views(old(names)@).contains(final(names)@[k]@),
{
    let ghost before = names@;
    if !contains_str(names, name.as_str()) {
        names.push(name.clone());
        proof {
            assert(views(names@)[names@.len() - 1] == name@);
            assert forall|k: int| 0 <= k < before.len() implies views(names@).contains(#[trigger] before[k]@) by {
                assert(views(names@)[k] == before[k]@);
            }
            assert forall|k: int| 0 <= k < names@.len() implies (#[trigger] names@[k])@ == name@ || views(before).contains(names@[k]@) by {
                if k < before.len() {
                    assert(views(before)[k] == names@[k]@);
                }
            }
        }
    } else {
        proof {
            let m = choose|m: int| 0 <= m < names@.len() && names@[m]@ == name@;
            assert(views(names@)[m] == name@);
            assert forall|k: int| 0 <= k < before.len() implies views(names@).contains(#[trigger] before[k]@) by {
                assert(views(names@)[k] == before[k]@);
            }
            assert forall|k: int| 0 <= k < names@.len() implies (#[trigger] names@[k])@ == name@ || views(before).contains(names@[k]@) by {
                assert(views(before)[k] == names@[k]@);
            }
        }
    }
}

/// Node `q` is a provider of the node at `index`.
pub open spec fn is_provider(graph: ComponentGraph, index: int, q: int) -> bool {
    0 <= q < graph.node_seq().len() && has_edge(graph.edge_seq(), q, index)
}

/// `x` names a runtime feature the component at `index` gets: one of its
/// runtime-feature providers, or one that an enabling component it depends
/// on has.
pub open spec fn feature_of(registry: ComponentRegistry, graph: ComponentGraph, index: int, x: Seq<char>) -> bool {
    ||| exists|q: int| #[trigger] is_provider(graph, index, q)
        && (graph.node_seq()[q] matches Node::RuntimeFeature(d) && d.name@ == x)
    ||| exists|q: int| #[trigger] is_provider(graph, index, q)
        && (graph.node_seq()[q] matches Node::Component(d)
        && (lookup(registry.enabling_components@, d.name@) matches Some(e)
        && views(e.component.runtime_features@).contains(x)))
}

/// Enabling component `i` is one that the component at `index` depends on.
pub open spec fn dependency_of(registry: ComponentRegistry, graph: ComponentGraph, index: int, i: int) -> bool {
    exists|q: int| #[trigger] is_provider(graph, index, q)
        && (graph.node_seq()[q] matches Node::Component(d) && d.name@ == registry.enabling_components@[i].0@)
}

/// The providers a component may use: the enabling components it is
/// composed with (as positions in the registry) and its runtime features.
#[derive(Debug)]
pub struct Providers {
    pub dependencies: Vec<usize>,
    pub runtime_features: Vec<String>,
}

impl ComponentRegistry {
    /// Looks up every provider of the component at `index` in `graph`: each
    /// component provider must enable it (given its metadata), and so must
    /// each runtime feature. A component provider brings its own runtime
    /// features along.
    pub fn collect_providers(
        &self,
        runtime_features: &RuntimeFeatureRegistry,
        graph: &ComponentGraph,
        index: usize,
        metadata: &ComponentMetadata,
    ) -> (r: Result<Providers, RegistryError>)
        requires
            index < graph.node_seq().len(),
            is_component(graph.node_seq()[index as int]),
        ensures
            r matches Ok(p) ==> {
                let consumer = graph.node_seq()[index as int]->Component_0;
                &&& forall|k: int| 0 <= k < p.dependencies@.len() ==> {
                    let i = #[trigger] p.dependencies@[k] as int;
                    &&& 0 <= i < self.enabling_components@.len()
                    &&& i == entry_index(self.enabling_components@, self.enabling_components@[i].0@)
                    &&& component_visible(self.enabling_components@[i].1, consumer.base.exposed, *metadata)
                    &&& forall|m: int| 0 <= m < self.enabling_components@[i].1.component.runtime_features@.len()
                        ==> views(p.runtime_features@).contains(#[trigger] self.enabling_components@[i].1.component.runtime_features@[m]@)
                }
                &&& forall|q: int| #![trigger has_edge(graph.edge_seq(), q, index as int)]
                    0 <= q < graph.node_seq().len() && has_edge(graph.edge_seq(), q, index as int) ==> match graph.node_seq()[q] {
                        Node::Component(d) => exists|k: int| 0 <= k < p.dependencies@.len()
                            && self.enabling_components@[#[trigger] p.dependencies@[k] as int].0@ == d.name@,
                        Node::RuntimeFeature(d) => views(p.runtime_features@).contains(d.name@)
                            && (lookup(runtime_features.runtime_features@, d.name@) matches Some(f)
                                && feature_visible(f, consumer.base.exposed)),
                    }
                &&& forall|m: int| 0 <= m < p.runtime_features@.len() ==> feature_of(*self, *graph, index as int, (#[trigger] p.runtime_features@[m])@)
                &&& forall|k: int| 0 <= k < p.dependencies@.len() ==> dependency_of(*self, *graph, index as int, #[trigger] p.dependencies@[k] as int)
            },
            r matches Err(e) ==> {
                ||| e matches RegistryError::DependencyDisabled { component, dependency } && exists|q: int| #![trigger graph.node_seq()[q]]
                    0 <= q < graph.node_seq().len() && has_edge(graph.edge_seq(), q, index as int)
                    && (graph.node_seq()[q] matches Node::Component(d) && d.name@ == dependency@
                    && !(lookup(self.enabling_components@, d.name@) matches Some(ec)
                        && component_visible(ec, graph.node_seq()[index as int]->Component_0.base.exposed, *metadata)))
                ||| e matches RegistryError::FeatureDisabled { component, feature } && exists|q: int| #![trigger graph.node_seq()[q]]
                    0 <= q < graph.node_seq().len() && has_edge(graph.edge_seq(), q, index as int)
                    && (graph.node_seq()[q] matches Node::RuntimeFeature(d) && d.name@ == feature@
                    && !(lookup(runtime_features.runtime_features@, d.name@) matches Some(f)
                        && feature_visible(f, graph.node_seq()[index as int]->Component_0.base.exposed)))
            },
    {
        let consumer = match graph.node(index) {
            Node::Component(d) => d,
            Node::RuntimeFeature(_) => {
                return Ok(Providers { dependencies: Vec::new(), runtime_features: Vec::new() });
            },
        };
        let ghost exposed = consumer.base.exposed;
        let providers = graph.get_dependencies(index);
        let mut dependencies: Vec<usize> = Vec::new();
        let mut names: Vec<String> = Vec::new();
        let mut k: usize = 0;
        while k < providers.len()
            invariant
                index < graph.node_seq().len(),
                graph.node_seq()[index as int] == Node::Component(*consumer),
                exposed == consumer.base.exposed,
                forall|m: int| 0 <= m < providers@.len() ==> has_edge(graph.edge_seq(), #[trigger] providers@[m] as int, index as int),
                forall|q: int| has_edge(graph.edge_seq(), q, index as int) ==> providers@.contains(q as usize),
                k <= providers@.len(),
                forall|m: int| 0 <= m < dependencies@.len() ==> {
                    let i = #[trigger] dependencies@[m] as int;
                    &&& 0 <= i < self.enabling_components@.len()
                    &&& i == entry_index(self.enabling_components@, self.enabling_components@[i].0@)
                    &&& component_visible(self.enabling_components@[i].1, exposed, *metadata)
                    &&& forall|j: int| 0 <= j < self.enabling_components@[i].1.component.runtime_features@.len()
                        ==> views(names@).contains(#[trigger] self.enabling_components@[i].1.component.runtime_features@[j]@)
                },
                forall|m: int| 0 <= m < k ==> {
                    let q = #[trigger] providers@[m] as int;
                    q < graph.node_seq().len() ==> match graph.node_seq()[q] {
                        Node::Component(d) => exists|j: int| 0 <= j < dependencies@.len()
                            && self.enabling_components@[#[trigger] dependencies@[j] as int].0@ == d.name@,
                        Node::RuntimeFeature(d) => views(names@).contains(d.name@)
                            && (lookup(runtime_features.runtime_features@, d.name@) matches Some(f)
                                && feature_visible(f, exposed)),
                    }
                },
                forall|m: int| 0 <= m < names@.len() ==> feature_of(*self, *graph, index as int, (#[trigger] names@[m])@),
                forall|m: int| 0 <= m < dependencies@.len() ==> dependency_of(*self, *graph, index as int, #[trigger] dependencies@[m] as int),
            decreases providers@.len() - k,
        {
            let q = providers[k];
            assert(has_edge(graph.edge_seq(), q as int, index as int));
            if q >= graph.nodes().len() {
                k = k + 1;
                continue;
            }
            let ghost names0 = names@;
            let ghost deps0 = dependencies@;
            match graph.node(q) {
                Node::Component(d) => {
                    match find_entry(&self.enabling_components, d.name.as_str()) {
                        Some(i) => {
                            proof { lemma_entry_index(self.enabling_components@, d.name@); }
                            match self.get_enabled_component_dependency(consumer, metadata, d.name.as_str()) {
                                Some(spec) => {
                                    let mut j: usize = 0;
                                    proof {
                                        assert forall|m: int| 0 <= m < names0.len() implies views(names@).contains(#[trigger] names0[m]@) by {
                                            assert(views(names@)[m] == names0[m]@);
                                        }
                                    }
                                    while j < spec.runtime_features.len()
                                        invariant
                                            j <= spec.runtime_features@.len(),
                                            forall|m: int| 0 <= m < names0.len() ==> views(names@).contains(#[trigger] names0[m]@),
                                            forall|m: int| 0 <= m < j ==> views(names@).contains(#[trigger] spec.runtime_features@[m]@),
                                            forall|m: int| 0 <= m < names@.len() ==> feature_of(*self, *graph, index as int, (#[trigger] names@[m])@),
                                            is_provider(*graph, index as int, q as int),
                                            graph.node_seq()[q as int] == Node::Component(*d),
                                            lookup(self.enabling_components@, d.name@) matches Some(e) && e.component == *spec,
                                        decreases spec.runtime_features@.len() - j,
                                    {
                                        let ghost names1 = names@;
                                        add_name(&mut names, &spec.runtime_features[j]);
                                        proof {
                                            assert(views(spec.runtime_features@)[j as int] == spec.runtime_features@[j as int]@);
                                            assert(feature_of(*self, *graph, index as int, spec.runtime_features@[j as int]@));
                                            assert forall|m: int| 0 <= m < names@.len() implies feature_of(*self, *graph, index as int, (#[trigger] names@[m])@) by {
                                                if names@[m]@ != spec.runtime_features@[j as int]@ {
                                                    let w = choose|w: int| 0 <= w < views(names1).len() && views(names1)[w] == names@[m]@;
                                                    assert(views(names1)[w] == names1[w]@);
                                                }
                                            }
                                            assert forall|m: int| 0 <= m < names0.len() implies views(names@).contains(#[trigger] names0[m]@) by {
                                                let w = choose|w: int| 0 <= w < names1.len() && views(names1)[w] == names0[m]@;
                                                assert(views(names1)[w] == names1[w]@);
                                            }
                                            assert forall|m: int| 0 <= m < j + 1 implies views(names@).contains(#[trigger] spec.runtime_features@[m]@) by {
                                                if m < j {
                                                    let w = choose|w: int| 0 <= w < names1.len() && views(names1)[w] == spec.runtime_features@[m]@;
                                                    assert(views(names1)[w] == names1[w]@);
                                                }
                                            }
                                        }
                                        j = j + 1;
                                    }
                                    dependencies.push(i);
                                    proof {
                                        assert(dependency_of(*self, *graph, index as int, i as int));
                                        assert forall|m: int| 0 <= m < dependencies@.len() implies dependency_of(*self, *graph, index as int, #[trigger] dependencies@[m] as int) by {
                                            if m < deps0.len() {
                                                assert(dependencies@[m] == deps0[m]);
                                            }
                                        }
                                        assert(dependencies@[dependencies@.len() - 1] == i);
                                        assert(self.enabling_components@[i as int].0@ == d.name@);
                                        assert forall|m: int| 0 <= m < dependencies@.len() implies {
                                            let i2 = #[trigger] dependencies@[m] as int;
                                            &&& 0 <= i2 < self.enabling_components@.len()
                                            &&& i2 == entry_index(self.enabling_components@, self.enabling_components@[i2].0@)
                                            &&& component_visible(self.enabling_components@[i2].1, exposed, *metadata)
                                            &&& forall|j2: int| 0 <= j2 < self.enabling_components@[i2].1.component.runtime_features@.len()
                                                ==> views(names@).contains(#[trigger] self.enabling_components@[i2].1.component.runtime_features@[j2]@)
                                        } by {
                                            if m < deps0.len() {
                                                assert(dependencies@[m] == deps0[m]);
                                                let i2 = deps0[m] as int;
                                                assert forall|j2: int| 0 <= j2 < self.enabling_components@[i2].1.component.runtime_features@.len()
                                                    implies views(names@).contains(#[trigger] self.enabling_components@[i2].1.component.runtime_features@[j2]@) by {
                                                    let x = self.enabling_components@[i2].1.component.runtime_features@[j2]@;
                                                    assert(views(names0).contains(x));
                                                    let w = choose|w: int| 0 <= w < names0.len() && views(names0)[w] == x;
                                                    assert(views(names0)[w] == names0[w]@);
                                                }
                                            }
                                        }
                                        assert forall|m: int| 0 <= m < k + 1 implies {
                                            let q2 = #[trigger] providers@[m] as int;
                                            q2 < graph.node_seq().len() ==> match graph.node_seq()[q2] {
                                                Node::Component(d2) => exists|j2: int| 0 <= j2 < dependencies@.len()
                                                    && self.enabling_components@[#[trigger] dependencies@[j2] as int].0@ == d2.name@,
                                                Node::RuntimeFeature(d2) => views(names@).contains(d2.name@)
                                                    && (lookup(runtime_features.runtime_features@, d2.name@) matches Some(f)
                                                        && feature_visible(f, exposed)),
                                            }
                                        } by {
                                            let q2 = providers@[m] as int;
                                            if m < k && q2 < graph.node_seq().len() {
                                                match graph.node_seq()[q2] {
                                                    Node::Component(d2) => {
                                                        let j2 = choose|j2: int| 0 <= j2 < deps0.len()
                                                            && self.enabling_components@[#[trigger] deps0[j2] as int].0@ == d2.name@;
                                                        assert(dependencies@[j2] == deps0[j2]);
                                                    },
                                                    Node::RuntimeFeature(d2) => {
                                                        let w = choose|w: int| 0 <= w < names0.len() && views(names0)[w] == d2.name@;
                                                        assert(views(names0)[w] == names0[w]@);
                                                    },
                                                }
                                            } else if m == k {
                                                assert(dependencies@[dependencies@.len() - 1] == i);
                                            }
                                        }
                                    }
                                },
                                None => {
                                    return Err(RegistryError::DependencyDisabled {
                                        component: consumer.name.clone(),
                                        dependency: d.name.clone(),
                                    });
                                },
                            }
                        },
                        None => {
                            return Err(RegistryError::DependencyDisabled {
                                component: consumer.name.clone(),
                                dependency: d.name.clone(),
                            });
                        },
                    }
                },
                Node::RuntimeFeature(d) => {
                    match runtime_features.get_enabled_runtime_feature(consumer, d.name.as_str()) {
                        Some(_) => {
                            add_name(&mut names, &d.name);
                            proof {
                                assert(is_provider(*graph, index as int, q as int));
                                assert(feature_of(*self, *graph, index as int, d.name@));
                                assert forall|m: int| 0 <= m < names@.len() implies feature_of(*self, *graph, index as int, (#[trigger] names@[m])@) by {
                                    if names@[m]@ != d.name@ {
                                        let w = choose|w: int| 0 <= w < views(names0).len() && views(names0)[w] == names@[m]@;
                                        assert(views(names0)[w] == names0[w]@);
                                    }
                                }
                                assert forall|m: int| 0 <= m < dependencies@.len() implies {
                                    let i2 = #[trigger] dependencies@[m] as int;
                                    &&& 0 <= i2 < self.enabling_components@.len()
                                    &&& i2 == entry_index(self.enabling_components@, self.enabling_components@[i2].0@)
                                    &&& component_visible(self.enabling_components@[i2].1, exposed, *metadata)
                                    &&& forall|j2: int| 0 <= j2 < self.enabling_components@[i2].1.component.runtime_features@.len()
                                        ==> views(names@).contains(#[trigger] self.enabling_components@[i2].1.component.runtime_features@[j2]@)
                                } by {
                                    let i2 = dependencies@[m] as int;
                                    assert forall|j2: int| 0 <= j2 < self.enabling_components@[i2].1.component.runtime_features@.len()
                                        implies views(names@).contains(#[trigger] self.enabling_components@[i2].1.component.runtime_features@[j2]@) by {
                                        let x = self.enabling_components@[i2].1.component.runtime_features@[j2]@;
                                        assert(views(names0).contains(x));
                                        let w = choose|w: int| 0 <= w < names0.len() && views(names0)[w] == x;
                                        assert(views(names0)[w] == names0[w]@);
                                    }
                                }
                                assert forall|m: int| 0 <= m < k + 1 implies {
                                    let q2 = #[trigger] providers@[m] as int;
                                    q2 < graph.node_seq().len() ==> match graph.node_seq()[q2] {
                                        Node::Component(d2) => exists|j2: int| 0 <= j2 < dependencies@.len()
                                            && self.enabling_components@[#[trigger] dependencies@[j2] as int].0@ == d2.name@,
                                        Node::RuntimeFeature(d2) => views(names@).contains(d2.name@)
                                            && (lookup(runtime_features.runtime_features@, d2.name@) matches Some(f)
                                                && feature_visible(f, exposed)),
                                    }
                                } by {
                                    let q2 = providers@[m] as int;
                                    if m < k && q2 < graph.node_seq().len() {
                                        match graph.node_seq()[q2] {
                                            Node::Component(d2) => {},
                                            Node::RuntimeFeature(d2) => {
                                                let w = choose|w: int| 0 <= w < names0.len() && views(names0)[w] == d2.name@;
                                                assert(views(names0)[w] == names0[w]@);
                                            },
                                        }
                                    }
                                }
                            }
                        },
                        None => {
                            return Err(RegistryError::FeatureDisabled {
                                component: consumer.name.clone(),
                                feature: d.name.clone(),
                            });
                        },
                    }
                },
            }
            k = k + 1;
        }
        proof {
            assert forall|q: int| #![trigger has_edge(graph.edge_seq(), q, index as int)]
                0 <= q < graph.node_seq().len() && has_edge(graph.edge_seq(), q, index as int) implies match graph.node_seq()[q] {
                    Node::Component(d) => exists|k2: int| 0 <= k2 < dependencies@.len()
                        && self.enabling_components@[#[trigger] dependencies@[k2] as int].0@ == d.name@,
                    Node::RuntimeFeature(d) => views(names@).contains(d.name@)
                        && (lookup(runtime_features.runtime_features@, d.name@) matches Some(f)
                            && feature_visible(f, consumer.base.exposed)),
                } by {
                let m = choose|m: int| 0 <= m < providers@.len() && providers@[m] == q as usize;
                assert(providers@[m] as int == q);
            }
        }
        Ok(Providers { dependencies, runtime_features: names })
    }
}

proof fn lemma_filter_member(s: Seq<Seq<char>>, pred: spec_fn(Seq<char>) -> bool, x: Seq<char>)
    requires
        s.filter(pred).contains(x),
    ensures
        s.contains(x),
        pred(x),
    decreases s.len(),
{
    reveal(Seq::filter);
    if s.len() > 0 {
        let sub = s.drop_last().filter(pred);
        let w = choose|w: int| 0 <= w < s.filter(pred).len() && s.filter(pred)[w] == x;
        if pred(s.last()) && w == sub.len() {
            assert(x == s.last());
            assert(s[s.len() - 1] == x);
        } else {
            assert(sub[w] == x);
            assert(sub.contains(x));
            lemma_filter_member(s.drop_last(), pred, x);
            let w2 = choose|w2: int| 0 <= w2 < s.drop_last().len() && s.drop_last()[w2] == x;
            assert(s[w2] == x);
        }
    }
}

/// Whether the named runtime features provide `iface`.
pub open spec fn provides(entries: Seq<(String, RuntimeFeature)>, names: Seq<String>, iface: Seq<char>) -> bool {
    exists|k: int, j: int|
        0 <= k < names.len() && lookup(entries, names[k]@) is Some
            && 0 <= j < lookup(entries, names[k]@)->0.interfaces@.len()
            && (#[trigger] lookup(entries, names[k]@)->0.interfaces@[j])@ == iface
}

impl RuntimeFeatureRegistry {
    /// The interfaces provided by the named runtime features.
    pub fn provided_interfaces(&self, names: &Vec<String>) -> (r: Vec<String>)
        ensures
            forall|m: int| 0 <= m < r@.len() ==> provides(self.runtime_features@, names@, #[trigger] r@[m]@),
            forall|k: int, j: int| 0 <= k < names@.len() && (lookup(self.runtime_features@, #[trigger] names@[k]@) matches Some(f)
                && 0 <= j < f.interfaces@.len()) ==> views(r@).contains((#[trigger] lookup(self.runtime_features@, names@[k]@)->0.interfaces@[j])@),
    {
        let mut r: Vec<String> = Vec::new();
        let mut k: usize = 0;
        while k < names.len()
            invariant
                k <= names@.len(),
                forall|m: int| 0 <= m < r@.len() ==> provides(self.runtime_features@, names@, #[trigger] r@[m]@),
                forall|k2: int, j: int| 0 <= k2 < k && (lookup(self.runtime_features@, #[trigger] names@[k2]@) matches Some(f)
                    && 0 <= j < f.interfaces@.len()) ==> views(r@).contains((#[trigger] lookup(self.runtime_features@, names@[k2]@)->0.interfaces@[j])@),
            decreases names@.len() - k,
        {
            if let Some(f) = self.get_runtime_feature(names[k].as_str()) {
                let mut j: usize = 0;
                let ghost r0 = r@;
                while j < f.interfaces.len()
                    invariant
                        k < names@.len(),
                        lookup(self.runtime_features@, names@[k as int]@) == Some(*f),
                        j <= f.interfaces@.len(),
                        r0.len() <= r@.len(),
                        forall|m: int| 0 <= m < r0.len() ==> r@[m] == r0[m],
                        forall|m: int| 0 <= m < r@.len() ==> provides(self.runtime_features@, names@, #[trigger] r@[m]@),
                        forall|j2: int| 0 <= j2 < j ==> views(r@).contains((#[trigger] f.interfaces@[j2])@),
                    decreases f.interfaces@.len() - j,
                {
                    let ghost before = r@;
                    r.push(f.interfaces[j].clone());
                    proof {
                        assert(lookup(self.runtime_features@, names@[k as int]@)->0.interfaces@[j as int] == f.interfaces@[j as int]);
                        assert(provides(self.runtime_features@, names@, f.interfaces@[j as int]@));
                        assert forall|j2: int| 0 <= j2 < j + 1 implies views(r@).contains((#[trigger] f.interfaces@[j2])@) by {
                            if j2 < j {
                                let w = choose|w: int| 0 <= w < before.len() && views(before)[w] == f.interfaces@[j2]@;
                                assert(views(r@)[w] == views(before)[w]);
                            } else {
                                assert(views(r@)[r@.len() - 1] == f.interfaces@[j2]@);
                            }
                        }
                    }
                    j = j + 1;
                }
                proof {
                    assert forall|k2: int, j2: int| 0 <= k2 < k + 1 && (lookup(self.runtime_features@, #[trigger] names@[k2]@) matches Some(g)
                        && 0 <= j2 < g.interfaces@.len()) implies views(r@).contains((#[trigger] lookup(self.runtime_features@, names@[k2]@)->0.interfaces@[j2])@) by {
                        if k2 < k {
                            let x = lookup(self.runtime_features@, names@[k2]@)->0.interfaces@[j2]@;
                            let w = choose|w: int| 0 <= w < r0.len() && views(r0)[w] == x;
                            assert(views(r@)[w] == views(r0)[w]);
                        }
                    }
                }
            }
            k = k + 1;
        }
        r
    }
}

/// Giving a component more runtime features never leaves an import unmet
/// that its features met before.
pub proof fn lemma_more_features_keep_imports_met(
    entries: Seq<(String, RuntimeFeature)>,
    names: Seq<String>,
    more: Seq<String>,
    import: Seq<char>,
)
    requires
        forall|k: int| 0 <= k < names.len() ==> views(more).contains(#[trigger] names[k]@),
        exists|iface: Seq<char>| provides(entries, names, iface) && satisfies(iface, import),
    ensures
        exists|iface: Seq<char>| provides(entries, more, iface) && satisfies(iface, import),
{
    let iface = choose|iface: Seq<char>| provides(entries, names, iface) && satisfies(iface, import);
    let (k, j) = choose|k: int, j: int|
        0 <= k < names.len() && lookup(entries, names[k]@) is Some
            && 0 <= j < lookup(entries, names[k]@)->0.interfaces@.len()
            && (#[trigger] lookup(entries, names[k]@)->0.interfaces@[j])@ == iface;
    assert(views(more).contains(names[k]@));
    let m = choose|m: int| 0 <= m < views(more).len() && views(more)[m] == names[k]@;
    assert(views(more)[m] == more[m]@);
    assert(lookup(entries, more[m]@)->0.interfaces@[j] == lookup(entries, names[k]@)->0.interfaces@[j]);
    assert(provides(entries, more, iface));
}

/// Checks that every import of the named component is met by a provided interface.
pub fn check_imports(component: &String, imports: &Vec<String>, provided: &Vec<String>) -> (r: Result<(), RegistryError>)
    ensures
        r is Ok <==> views(imports@).filter(|i: Seq<char>| !import_satisfied(i, views(provided@))).len() == 0,
        r is Ok ==> forall|k: int| 0 <= k < imports@.len() ==> import_satisfied(#[trigger] imports@[k]@, views(provided@)),
        r matches Err(e) ==> e matches RegistryError::UnsatisfiedImports { component: c, imports: u } && c@ == component@
            && views(u@) == views(imports@).filter(|i: Seq<char>| !import_satisfied(i, views(provided@)))
            && u@.len() > 0
            && forall|k: int| 0 <= k < u@.len() ==> !import_satisfied(#[trigger] u@[k]@, views(provided@)),
{
    let ghost pred = |i: Seq<char>| !import_satisfied(i, views(provided@));
    let unsatisfied = unsatisfied_imports(imports, provided);
    proof {
        broadcast use vstd::seq_lib::group_filter_ensures;
        assert forall|k: int| 0 <= k < unsatisfied@.len() implies !import_satisfied(#[trigger] unsatisfied@[k]@, views(provided@)) by {
            assert(views(unsatisfied@)[k] == unsatisfied@[k]@);
            assert(pred(views(imports@).filter(pred)[k]));
        }
    }
    if unsatisfied.len() == 0 {
        proof {
            broadcast use vstd::seq_lib::group_filter_ensures;
            assert forall|k: int| 0 <= k < imports@.len() implies import_satisfied(#[trigger] imports@[k]@, views(provided@)) by {
                if !import_satisfied(imports@[k]@, views(provided@)) {
                    assert(views(imports@)[k] == imports@[k]@);
                    assert(views(imports@).filter(pred).contains(views(imports@)[k]));
                }
            }
        }
        Ok(())
    } else {
        Err(RegistryError::UnsatisfiedImports { component: component.clone(), imports: unsatisfied })
    }
}

fn copy_text(o: &Option<String>) -> (r: Option<String>)
    ensures
        r == *o,
{
    match o {
        Some(s) => Some(s.clone()),
        None => None,
    }
}

fn copy_bytes(b: &Vec<u8>) -> (r: Vec<u8>)
    ensures
        r@ == b@,
{
    let mut r: Vec<u8> = Vec::new();
    let mut i: usize = 0;
    while i < b.len()
        invariant
            i <= b@.len(),
            r@ == b@.subrange(0, i as int),
        decreases b@.len() - i,
    {
        r.push(b[i]);
        i = i + 1;
        assert(r@ =~= b@.subrange(0, i as int));
    }
    assert(r@ =~= b@);
    r
}

/// Two specs agree on everything a dependent component reads from them.
pub open spec fn same_for_composition(a: ComponentSpec, b: ComponentSpec) -> bool {
    &&& a.name@ == b.name@
    &&& a.namespace == b.namespace
    &&& a.package == b.package
    &&& a.bytes@ == b.bytes@
    &&& a.imports@ == b.imports@
    &&& a.exports@ == b.exports@
    &&& a.runtime_features@ == b.runtime_features@
}

impl ComponentSpec {
    /// A copy of everything but the exported functions.
    pub fn copy_for_composition(&self) -> (r: ComponentSpec)
        ensures
            same_for_composition(r, *self),
            r.functions is None,
    {
        ComponentSpec {
            name: self.name.clone(),
            namespace: copy_text(&self.namespace),
            package: copy_text(&self.package),
            bytes: copy_bytes(&self.bytes),
            imports: copy_strings(&self.imports),
            exports: copy_strings(&self.exports),
            runtime_features: copy_strings(&self.runtime_features),
            functions: None,
        }
    }
}

/// What resolving a component decided: whether it is composed with its
/// configuration, which enabling components it is composed with (by
/// position in the registry), the imports left for runtime features, and
/// its runtime features.
#[derive(Debug)]
pub struct Resolution {
    pub compose_config: bool,
    pub dependencies: Vec<usize>,
    pub imports: Vec<String>,
    pub runtime_features: Vec<String>,
}

/// Some component the component at `index` depends on exports `i`.
pub open spec fn exported_by_provider(registry: ComponentRegistry, graph: ComponentGraph, index: int, i: Seq<char>) -> bool {
    exists|q: int| #[trigger] is_provider(graph, index, q)
        && (graph.node_seq()[q] matches Node::Component(d)
        && (lookup(registry.enabling_components@, d.name@) matches Some(e)
        && views(e.component.exports@).contains(i)))
}

/// The imports left to runtime features: those that are neither
/// configuration imports nor exported by a component dependency, in order.
pub open spec fn remaining_imports(registry: ComponentRegistry, graph: ComponentGraph, index: int, imports: Seq<Seq<char>>) -> Seq<Seq<char>> {
    imports.filter(|i: Seq<char>| !is_config_import(i)).filter(|i: Seq<char>| !exported_by_provider(registry, graph, index, i))
}

/// Some interface of a runtime feature the component gets meets `i`.
pub open spec fn import_met(registry: ComponentRegistry, features: RuntimeFeatureRegistry, graph: ComponentGraph, index: int, i: Seq<char>) -> bool {
    exists|iface: Seq<char>, x: Seq<char>| #![trigger feature_of(registry, graph, index, x), satisfies(iface, i)]
        feature_of(registry, graph, index, x)
        && (lookup(features.runtime_features@, x) matches Some(f) && views(f.interfaces@).contains(iface))
        && satisfies(iface, i)
}

/// Every component provider of the component at `index` is among `deps`.
pub open spec fn deps_cover(registry: ComponentRegistry, graph: ComponentGraph, index: int, deps: Seq<usize>) -> bool {
    forall|q: int| #[trigger] is_provider(graph, index, q) && graph.node_seq()[q] is Component ==>
        exists|k: int| 0 <= k < deps.len()
            && registry.enabling_components@[#[trigger] deps[k] as int].0@ == graph.node_seq()[q]->Component_0.name@
}

/// Every provider of the component at `index` enables it.
pub open spec fn providers_visible(registry: ComponentRegistry, features: RuntimeFeatureRegistry, graph: ComponentGraph, index: int, metadata: ComponentMetadata) -> bool {
    forall|q: int| #[trigger] is_provider(graph, index, q) ==> match graph.node_seq()[q] {
        Node::Component(d) => lookup(registry.enabling_components@, d.name@) matches Some(e)
            && component_visible(e, graph.node_seq()[index]->Component_0.base.exposed, metadata),
        Node::RuntimeFeature(d) => lookup(features.runtime_features@, d.name@) matches Some(f)
            && feature_visible(f, graph.node_seq()[index]->Component_0.base.exposed),
    }
}

impl ComponentRegistry {
    /// Whether one of the given enabling components exports `import`.
    fn exported_by_any(&self, deps: &Vec<usize>, import: &str) -> (r: bool)
        requires
            forall|k: int| 0 <= k < deps@.len() ==> #[trigger] deps@[k] < self.enabling_components@.len(),
        ensures
            r == exists|k: int| 0 <= k < deps@.len()
                && views(self.enabling_components@[#[trigger] deps@[k] as int].1.component.exports@).contains(import@),
    {
        let mut k: usize = 0;
        while k < deps.len()
            invariant
                k <= deps@.len(),
                forall|m: int| 0 <= m < deps@.len() ==> #[trigger] deps@[m] < self.enabling_components@.len(),
                forall|m: int| 0 <= m < k ==> !views(self.enabling_components@[#[trigger] deps@[m] as int].1.component.exports@).contains(import@),
            decreases deps@.len() - k,
        {
            let exports = &self.enabling_components[deps[k]].1.component.exports;
            if contains_str(exports, import) {
                proof {
                    let w = choose|w: int| 0 <= w < exports@.len() && exports@[w]@ == import@;
                    assert(views(exports@)[w] == import@);
                }
                return true;
            }
            proof {
                assert forall|w: int| 0 <= w < views(exports@).len() implies views(exports@)[w] != import@ by {
                    assert(views(exports@)[w] == exports@[w]@);
                }
            }
            k = k + 1;
        }
        false
    }

    /// Resolves the component at `index` in `graph`, given the metadata and
    /// imports read from its bytes: configuration imports are left to the
    /// configuration, imports that a component dependency exports are left to
    /// it, and every other import must be met by a runtime feature the
    /// component gets, its own or a dependency's.
    pub fn resolve_component(
        &self,
        runtime_features: &RuntimeFeatureRegistry,
        graph: &ComponentGraph,
        index: usize,
        metadata: &ComponentMetadata,
        imports: &Vec<String>,
    ) -> (r: Result<Resolution, RegistryError>)
        requires
            index < graph.node_seq().len(),
            is_component(graph.node_seq()[index as int]),
        ensures
            r is Ok <==> providers_visible(*self, *runtime_features, *graph, index as int, *metadata)
                && forall|k: int| 0 <= k < remaining_imports(*self, *graph, index as int, views(imports@)).len()
                    ==> import_met(*self, *runtime_features, *graph, index as int,
                        #[trigger] remaining_imports(*self, *graph, index as int, views(imports@))[k]),
            r matches Ok(res) ==> {
                &&& res.compose_config == exists|k: int| 0 <= k < imports@.len() && is_config_import(#[trigger] imports@[k]@)
                &&& views(res.imports@) == remaining_imports(*self, *graph, index as int, views(imports@))
                &&& forall|x: Seq<char>| views(res.runtime_features@).contains(x) <==> #[trigger] feature_of(*self, *graph, index as int, x)
                &&& forall|k: int| 0 <= k < res.dependencies@.len() ==> {
                    let i = #[trigger] res.dependencies@[k] as int;
                    &&& 0 <= i < self.enabling_components@.len()
                    &&& i == entry_index(self.enabling_components@, self.enabling_components@[i].0@)
                    &&& dependency_of(*self, *graph, index as int, i)
                }
                &&& deps_cover(*self, *graph, index as int, res.dependencies@)
            },
            r matches Err(e) ==> {
                ||| (e is DependencyDisabled || e is FeatureDisabled) && !providers_visible(*self, *runtime_features, *graph, index as int, *metadata)
                ||| e matches RegistryError::UnsatisfiedImports { component, imports: unmet }
                    && views(unmet@) == remaining_imports(*self, *graph, index as int, views(imports@))
                        .filter(|i: Seq<char>| !import_met(*self, *runtime_features, *graph, index as int, i))
            },
    {
        let ghost g = *graph;
        let ghost ix = index as int;
        let (compose_config, stripped) = strip_config_imports(imports);
        let providers = match self.collect_providers(runtime_features, graph, index, metadata) {
            Ok(p) => p,
            Err(e) => {
                proof {
                    if e is DependencyDisabled {
                        let q = choose|q: int| #![trigger graph.node_seq()[q]] 0 <= q < graph.node_seq().len() && has_edge(graph.edge_seq(), q, index as int)
                            && (graph.node_seq()[q] matches Node::Component(d) && d.name@ == e->DependencyDisabled_dependency@
                            && !(lookup(self.enabling_components@, d.name@) matches Some(ec)
                                && component_visible(ec, graph.node_seq()[index as int]->Component_0.base.exposed, *metadata)));
                        assert(is_provider(g, ix, q));
                    } else {
                        let q = choose|q: int| #![trigger graph.node_seq()[q]] 0 <= q < graph.node_seq().len() && has_edge(graph.edge_seq(), q, index as int)
                            && (graph.node_seq()[q] matches Node::RuntimeFeature(d) && d.name@ == e->FeatureDisabled_feature@
                            && !(lookup(runtime_features.runtime_features@, d.name@) matches Some(f)
                                && feature_visible(f, graph.node_seq()[index as int]->Component_0.base.exposed)));
                        assert(is_provider(g, ix, q));
                    }
                }
                return Err(e);
            },
        };
        proof {
            assert forall|q: int| #[trigger] is_provider(g, ix, q) implies match graph.node_seq()[q] {
                Node::Component(d) => lookup(self.enabling_components@, d.name@) matches Some(e)
                    && component_visible(e, graph.node_seq()[ix]->Component_0.base.exposed, *metadata),
                Node::RuntimeFeature(d) => lookup(runtime_features.runtime_features@, d.name@) matches Some(f)
                    && feature_visible(f, graph.node_seq()[ix]->Component_0.base.exposed),
            } by {
                assert(has_edge(graph.edge_seq(), q, index as int));
                match graph.node_seq()[q] {
                    Node::Component(d) => {
                        let k = choose|k: int| 0 <= k < providers.dependencies@.len()
                            && self.enabling_components@[#[trigger] providers.dependencies@[k] as int].0@ == d.name@;
                        let i = providers.dependencies@[k] as int;
                        assert(i == entry_index(self.enabling_components@, self.enabling_components@[i].0@));
                    },
                    Node::RuntimeFeature(d) => {},
                }
            }
            assert(providers_visible(*self, *runtime_features, g, ix, *metadata));
            assert forall|x: Seq<char>| views(providers.runtime_features@).contains(x) <==> #[trigger] feature_of(*self, g, ix, x) by {
                if views(providers.runtime_features@).contains(x) {
                    let w = choose|w: int| 0 <= w < views(providers.runtime_features@).len() && views(providers.runtime_features@)[w] == x;
                    assert(views(providers.runtime_features@)[w] == providers.runtime_features@[w]@);
                }
                if feature_of(*self, g, ix, x) {
                    if exists|q: int| #[trigger] is_provider(g, ix, q) && (graph.node_seq()[q] matches Node::RuntimeFeature(d) && d.name@ == x) {
                        let q = choose|q: int| #[trigger] is_provider(g, ix, q) && (graph.node_seq()[q] matches Node::RuntimeFeature(d) && d.name@ == x);
                        assert(has_edge(graph.edge_seq(), q, index as int));
                    } else {
                        let q = choose|q: int| #[trigger] is_provider(g, ix, q) && (graph.node_seq()[q] matches Node::Component(d)
                            && (lookup(self.enabling_components@, d.name@) matches Some(e) && views(e.component.runtime_features@).contains(x)));
                        assert(has_edge(graph.edge_seq(), q, index as int));
                        let d = graph.node_seq()[q]->Component_0;
                        let k = choose|k: int| 0 <= k < providers.dependencies@.len()
                            && self.enabling_components@[#[trigger] providers.dependencies@[k] as int].0@ == d.name@;
                        let i = providers.dependencies@[k] as int;
                        assert(i == entry_index(self.enabling_components@, self.enabling_components@[i].0@));
                        let e = self.enabling_components@[i].1;
                        let m = choose|m: int| 0 <= m < views(e.component.runtime_features@).len() && views(e.component.runtime_features@)[m] == x;
                        assert(views(e.component.runtime_features@)[m] == e.component.runtime_features@[m]@);
                    }
                }
            }
        }
        let ghost exported = |i: Seq<char>| !exported_by_provider(*self, g, ix, i);
        let mut remaining: Vec<String> = Vec::new();
        let mut k: usize = 0;
        while k < stripped.len()
            invariant
                k <= stripped@.len(),
                g == *graph,
                ix == index as int,
                exported == (|i: Seq<char>| !exported_by_provider(*self, g, ix, i)),
                forall|m: int| 0 <= m < providers.dependencies@.len() ==> {
                    let i = #[trigger] providers.dependencies@[m] as int;
                    &&& 0 <= i < self.enabling_components@.len()
                    &&& i == entry_index(self.enabling_components@, self.enabling_components@[i].0@)
                    &&& dependency_of(*self, g, ix, i)
                },
                forall|q: int| #![trigger has_edge(graph.edge_seq(), q, index as int)]
                    0 <= q < graph.node_seq().len() && has_edge(graph.edge_seq(), q, index as int) ==> (graph.node_seq()[q] matches Node::Component(d)
                    ==> exists|k2: int| 0 <= k2 < providers.dependencies@.len()
                        && self.enabling_components@[#[trigger] providers.dependencies@[k2] as int].0@ == d.name@),
                views(remaining@) == views(stripped@).subrange(0, k as int).filter(exported),
                compose_config == exists|k3: int| 0 <= k3 < imports@.len() && is_config_import(#[trigger] imports@[k3]@),
                views(stripped@) == views(imports@).filter(|i: Seq<char>| !is_config_import(i)),
                providers_visible(*self, *runtime_features, g, ix, *metadata),
                forall|x: Seq<char>| views(providers.runtime_features@).contains(x) <==> #[trigger] feature_of(*self, g, ix, x),
            decreases stripped@.len() - k,
        {
            let out = self.exported_by_any(&providers.dependencies, stripped[k].as_str());
            let ghost x = stripped@[k as int]@;
            proof {
                reveal(Seq::filter);
                assert(views(stripped@).subrange(0, k + 1).drop_last() =~= views(stripped@).subrange(0, k as int));
                if out {
                    let m = choose|m: int| 0 <= m < providers.dependencies@.len()
                        && views(self.enabling_components@[#[trigger] providers.dependencies@[m] as int].1.component.exports@).contains(x);
                    let i = providers.dependencies@[m] as int;
                    let q = choose|q: int| #[trigger] is_provider(g, ix, q)
                        && (graph.node_seq()[q] matches Node::Component(d) && d.name@ == self.enabling_components@[i].0@);
                    assert(exported_by_provider(*self, g, ix, x));
                } else {
                    if exported_by_provider(*self, g, ix, x) {
                        let q = choose|q: int| #[trigger] is_provider(g, ix, q)
                            && (graph.node_seq()[q] matches Node::Component(d)
                            && (lookup(self.enabling_components@, d.name@) matches Some(e)
                            && views(e.component.exports@).contains(x)));
                        assert(has_edge(graph.edge_seq(), q, index as int));
                        let d = graph.node_seq()[q]->Component_0;
                        let k2 = choose|k2: int| 0 <= k2 < providers.dependencies@.len()
                            && self.enabling_components@[#[trigger] providers.dependencies@[k2] as int].0@ == d.name@;
                        let i = providers.dependencies@[k2] as int;
                        assert(i == entry_index(self.enabling_components@, self.enabling_components@[i].0@));
                        assert(views(self.enabling_components@[providers.dependencies@[k2] as int].1.component.exports@).contains(x));
                    }
                }
            }
            if !out {
                remaining.push(stripped[k].clone());
            }
            assert(views(remaining@) =~= views(stripped@).subrange(0, k + 1).filter(exported));
            k = k + 1;
        }
        assert(views(stripped@).subrange(0, stripped@.len() as int) =~= views(stripped@));
        let ghost rem = remaining_imports(*self, g, ix, views(imports@));
        assert(views(remaining@) == rem);
        let provided = runtime_features.provided_interfaces(&providers.runtime_features);
        let ghost met = |i: Seq<char>| !import_satisfied(i, views(provided@));
        let ghost met2 = |i: Seq<char>| !import_met(*self, *runtime_features, g, ix, i);
        proof {
            assert forall|i: Seq<char>| import_satisfied(i, views(provided@)) <==> import_met(*self, *runtime_features, g, ix, i) by {
                if import_satisfied(i, views(provided@)) {
                    let j = choose|j: int| 0 <= j < views(provided@).len() && satisfies(#[trigger] views(provided@)[j], i);
                    assert(views(provided@)[j] == provided@[j]@);
                    assert(provides(runtime_features.runtime_features@, providers.runtime_features@, provided@[j]@));
                    let (k2, j2) = choose|k2: int, j2: int|
                        0 <= k2 < providers.runtime_features@.len() && lookup(runtime_features.runtime_features@, providers.runtime_features@[k2]@) is Some
                            && 0 <= j2 < lookup(runtime_features.runtime_features@, providers.runtime_features@[k2]@)->0.interfaces@.len()
                            && (#[trigger] lookup(runtime_features.runtime_features@, providers.runtime_features@[k2]@)->0.interfaces@[j2])@ == provided@[j]@;
                    let xx = providers.runtime_features@[k2]@;
                    assert(views(providers.runtime_features@)[k2] == xx);
                    assert(feature_of(*self, g, ix, xx));
                    let f = lookup(runtime_features.runtime_features@, xx)->0;
                    assert(views(f.interfaces@)[j2] == f.interfaces@[j2]@);
                    assert(views(f.interfaces@).contains(provided@[j]@));
                }
                if import_met(*self, *runtime_features, g, ix, i) {
                    let (iface, xx) = choose|iface: Seq<char>, xx: Seq<char>| #![trigger feature_of(*self, g, ix, xx), satisfies(iface, i)]
                        feature_of(*self, g, ix, xx)
                        && (lookup(runtime_features.runtime_features@, xx) matches Some(f) && views(f.interfaces@).contains(iface))
                        && satisfies(iface, i);
                    assert(views(providers.runtime_features@).contains(xx));
                    let k2 = choose|k2: int| 0 <= k2 < views(providers.runtime_features@).len() && views(providers.runtime_features@)[k2] == xx;
                    assert(views(providers.runtime_features@)[k2] == providers.runtime_features@[k2]@);
                    let f = lookup(runtime_features.runtime_features@, xx)->0;
                    let j2 = choose|j2: int| 0 <= j2 < views(f.interfaces@).len() && views(f.interfaces@)[j2] == iface;
                    assert(views(f.interfaces@)[j2] == f.interfaces@[j2]@);
                    assert(lookup(runtime_features.runtime_features@, providers.runtime_features@[k2]@)->0.interfaces@[j2] == f.interfaces@[j2]);
                    assert(views(provided@).contains(iface));
                    let w = choose|w: int| 0 <= w < views(provided@).len() && views(provided@)[w] == iface;
                    assert(satisfies(views(provided@)[w], i));
                }
            }
            assert(met =~= met2);
        }
        let name = match graph.node(index) {
            Node::Component(d) => &d.name,
            Node::RuntimeFeature(d) => &d.name,
        };
        match check_imports(name, &remaining, &provided) {
            Ok(()) => {
                proof {
                    assert forall|k2: int| 0 <= k2 < rem.len() implies import_met(*self, *runtime_features, g, ix, #[trigger] rem[k2]) by {
                        assert(views(remaining@)[k2] == remaining@[k2]@);
                        assert(import_satisfied(remaining@[k2]@, views(provided@)));
                    }
                }
                proof {
                    assert forall|q: int| #[trigger] is_provider(g, ix, q) && g.node_seq()[q] is Component implies
                        exists|k2: int| 0 <= k2 < providers.dependencies@.len()
                            && self.enabling_components@[#[trigger] providers.dependencies@[k2] as int].0@ == g.node_seq()[q]->Component_0.name@ by {
                        assert(has_edge(graph.edge_seq(), q, index as int));
                    }
                    assert(deps_cover(*self, g, ix, providers.dependencies@));
                }
                Ok(Resolution {
                    compose_config,
                    dependencies: providers.dependencies,
                    imports: remaining,
                    runtime_features: providers.runtime_features,
                })
            },
            Err(e) => {
                proof {
                    broadcast use vstd::seq_lib::group_filter_ensures;
                    assert(rem.filter(met) == rem.filter(met2));
                    assert(rem.filter(met).len() > 0);
                    let x = rem.filter(met)[0];
                    assert(rem.filter(met).contains(x));
                    lemma_filter_member(rem, met, x);
                    let k2 = choose|k2: int| 0 <= k2 < rem.len() && rem[k2] == x;
                    assert(!import_met(*self, *runtime_features, g, ix, rem[k2]));
                }
                Err(e)
            },
        }
    }

    /// Records what building one component came to. A resolved component is
    /// published if it is exposed, and kept for its dependents if it enables
    /// any. A component that could not be resolved is skipped if it is
    /// exposed; otherwise its error ends the build.
    pub fn record_outcome(
        &mut self,
        definition: &ComponentDefinition,
        outcome: Result<ComponentSpec, RegistryError>,
    ) -> (r: Result<(), RegistryError>)
        ensures
            old(self).wf() && (forall|k: int| 0 <= k < old(self).enabling_components@.len()
                ==> (#[trigger] old(self).enabling_components@[k]).0@ != definition.name@)
                && (forall|k: int| 0 <= k < old(self).components@.len() ==> (#[trigger] old(self).components@[k]).name@ != definition.name@)
                && (outcome matches Ok(spec) ==> spec.name@ == definition.name@) ==> final(self).wf(),
            match outcome {
                Ok(spec) => {
                    &&& r is Ok
                    &&& final(self).components@ == if definition.base.exposed {
                        old(self).components@.push(spec)
                    } else {
                        old(self).components@
                    }
                    &&& if definition.enables_view() != "none"@ {
                        let last = final(self).enabling_components@.last();
                        &&& final(self).enabling_components@.len() == old(self).enabling_components@.len() + 1
                        &&& final(self).enabling_components@.drop_last() == old(self).enabling_components@
                        &&& last.0@ == definition.name@
                        &&& last.1.exposed == definition.base.exposed
                        &&& last.1.enables@ == definition.enables_view()
                        &&& same_for_composition(last.1.component, spec)
                    } else {
                        final(self).enabling_components@ == old(self).enabling_components@
                    }
                },
                Err(e) => {
                    &&& final(self).components@ == old(self).components@
                    &&& final(self).enabling_components@ == old(self).enabling_components@
                    &&& (definition.base.exposed ==> r is Ok)
                    &&& (!definition.base.exposed ==> r == Err::<(), RegistryError>(e))
                },
            },
    {
        match outcome {
            Ok(spec) => {
                if !str_eq(definition.base.base.enables.as_str(), "none") {
                    let enabling = EnablingComponent {
                        component: spec.copy_for_composition(),
                        exposed: definition.base.exposed,
                        enables: definition.base.base.enables.clone(),
                    };
                    self.enabling_components.push((definition.name.clone(), enabling));
                    assert(self.enabling_components@.drop_last() =~= old(self).enabling_components@);
                }
                if definition.base.exposed {
                    self.components.push(spec);
                }
                Ok(())
            },
            Err(e) => {
                if definition.base.exposed {
                    Ok(())
                } else {
                    Err(e)
                }
            },
        }
    }
}

/// The text of `id` before its first `c`, if it has one.
pub open spec fn before_first(id: Seq<char>, c: char) -> Option<Seq<char>> {
    if exists|k: int| is_first(id, c, k) {
        Some(id.subrange(0, choose|k: int| is_first(id, c, k)))
    } else {
        None
    }
}

/// The namespace and package an interface id `ns:pkg/iface@version` names:
/// `ns` and `ns:pkg`.
pub open spec fn metadata_of(id: Seq<char>) -> (Option<Seq<char>>, Option<Seq<char>>) {
    (before_first(id, ':'), if before_first(id, ':') is Some { before_first(id, '/') } else { None })
}

fn prefix_before(id: &str, c: char) -> (r: Option<String>)
    ensures
        match r {
            Some(t) => before_first(id@, c) == Some(t@),
            None => before_first(id@, c) is None,
        },
{
    let n = id.unicode_len();
    assert(id@.subrange(0, n as int) =~= id@);
    match find_first(id, c, 0, n) {
        Some(k) => {
            proof {
                let k2 = choose|k2: int| is_first(id@, c, k2);
                lemma_first_unique(id@, c, k as int, k2);
            }
            Some(id.substring_char(0, k).to_string())
        },
        None => None,
    }
}

/// The package metadata of a component, read from the first interface it
/// exports; none when it exports no interface.
pub fn metadata_from_exports(exports: &Vec<String>) -> (r: ComponentMetadata)
    ensures
        exports@.len() == 0 ==> r.namespace is None && r.package is None,
        exports@.len() > 0 ==> {
            let (ns, pkg) = metadata_of(exports@[0]@);
            &&& (match r.namespace { Some(t) => ns == Some(t@), None => ns is None })
            &&& (match r.package { Some(t) => pkg == Some(t@), None => pkg is None })
        },
{
    if exports.len() == 0 {
        return ComponentMetadata { namespace: None, package: None };
    }
    let id = exports[0].as_str();
    let namespace = prefix_before(id, ':');
    let package = match &namespace {
        Some(_) => prefix_before(id, '/'),
        None => None,
    };
    ComponentMetadata { namespace, package }
}

} // verus!
