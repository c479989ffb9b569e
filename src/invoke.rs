//! Turning the results of a call into the JSON value the caller receives.

use vstd::prelude::*;
use crate::json::JsonValue;
use crate::marshal::{renders, val_to_json, WitVal};
use crate::registry::{lookup, RuntimeFeatureRegistry};
use crate::text::{has_prefix, starts_with, suffix_from};
use crate::text::str_eq;

verus! {

/// Why a call did not give a result.
#[derive(Debug)]
pub enum InvokeError {
    /// The number of arguments differs from the number of parameters.
    WrongArgCount { expected: usize, got: usize },
    /// The component returned the error arm of a result, with its payload.
    ComponentReturnedError(JsonValue),
    /// The component returned the error arm of a result, without a payload.
    ComponentReturnedBareError,
    /// The results do not match the fields of the declared record.
    RecordMismatch { results: usize, fields: usize },
}

/// Whether `schema` describes an object with properties: a JSON object
/// whose "type" member is "object" and that has a "properties" member.
pub open spec fn is_record_schema(schema: JsonValue) -> bool {
    schema matches JsonValue::Object(members)
        && (lookup(members@, "type"@) matches Some(ty) && (ty matches JsonValue::Str(s) && s@ == "object"@))
        && lookup(members@, "properties"@) is Some
}

/// The members of the "properties" object of a record schema, if it is an object.
pub open spec fn schema_properties(schema: JsonValue) -> Option<Seq<(String, JsonValue)>> {
    match schema {
        JsonValue::Object(members) => match lookup(members@, "properties"@) {
            Some(JsonValue::Object(props)) => Some(props@),
            _ => None,
        },
        _ => None,
    }
}

/// Checks that a call has as many arguments as the function has parameters.
pub fn check_arg_count(args: usize, params: usize) -> (r: Result<(), InvokeError>)
    ensures
        r is Ok <==> args == params,
        r matches Err(e) ==> e == (InvokeError::WrongArgCount { expected: params, got: args }),
{
    if args != params {
        Err(InvokeError::WrongArgCount { expected: params, got: args })
    } else {
        Ok(())
    }
}

fn member_position(members: &Vec<(String, JsonValue)>, key: &str) -> (r: Option<usize>)
    ensures
        match r {
            Some(i) => i < members@.len() && lookup(members@, key@) == Some(members@[i as int].1),
            None => lookup(members@, key@) is None,
        },
{
    proof {
        crate::registry::lemma_entry_index(members@, key@);
    }
    crate::registry::find_entry(members, key)
}

/// Whether a schema describes a record.
fn record_schema_properties(schema: &JsonValue) -> (r: Option<&Vec<(String, JsonValue)>>)
    ensures
        match r {
            Some(props) => is_record_schema(*schema) && schema_properties(*schema) == Some(props@),
            None => !is_record_schema(*schema) || schema_properties(*schema) is None,
        },
{
    match schema {
        JsonValue::Object(members) => {
            let is_object = match member_position(members, "type") {
                Some(i) => match &members[i].1 {
                    JsonValue::Str(s) => str_eq(s.as_str(), "object"),
                    _ => false,
                },
                None => false,
            };
            if !is_object {
                return None;
            }
            match member_position(members, "properties") {
                Some(i) => match &members[i].1 {
                    JsonValue::Object(props) => Some(props),
                    _ => None,
                },
                None => None,
            }
        },
        _ => None,
    }
}

/// The JSON value a call returns, from its results and its declared result
/// schema: null for no result; for one result, its rendering, unless it is
/// the error arm of a result, which fails the call; for several results,
/// an object that names them by the properties of a record schema, or
/// else an array of their renderings.
pub fn shape_results(results: &Vec<WitVal>, result_schema: &Option<JsonValue>) -> (r: Result<JsonValue, InvokeError>)
    ensures
        results@.len() == 0 ==> r == Ok::<JsonValue, InvokeError>(JsonValue::Null),
        results@.len() == 1 ==> match results@[0] {
            WitVal::ResultErr(Some(e)) => r matches Err(InvokeError::ComponentReturnedError(j)) && renders(*e, j),
            WitVal::ResultErr(None) => r matches Err(InvokeError::ComponentReturnedBareError),
            v => r matches Ok(j) && renders(v, j),
        },
        results@.len() > 1 ==> match result_schema {
            Some(schema) if is_record_schema(*schema) && schema_properties(*schema) is Some => {
                let props = schema_properties(*schema)->0;
                if props.len() == results@.len() {
                    r matches Ok(JsonValue::Object(out)) && out@.len() == props.len()
                        && forall|i: int| 0 <= i < props.len() ==> (#[trigger] out@[i]).0@ == props[i].0@
                            && renders(results@[i], out@[i].1)
                } else {
                    r matches Err(e) && e == (InvokeError::RecordMismatch { results: results@.len() as usize, fields: props.len() as usize })
                }
            },
            _ => r matches Ok(JsonValue::Array(out)) && out@.len() == results@.len()
                && forall|i: int| 0 <= i < results@.len() ==> renders(#[trigger] results@[i], out@[i]),
        },
{
    if results.len() == 0 {
        return Ok(JsonValue::Null);
    }
    if results.len() == 1 {
        return match &results[0] {
            WitVal::ResultErr(Some(e)) => Err(InvokeError::ComponentReturnedError(val_to_json(&**e))),
            WitVal::ResultErr(None) => Err(InvokeError::ComponentReturnedBareError),
            v => Ok(val_to_json(v)),
        };
    }
    let props = match result_schema {
        Some(schema) => record_schema_properties(schema),
        None => None,
    };
    match props {
        Some(props) => {
            if props.len() != results.len() {
                return Err(InvokeError::RecordMismatch { results: results.len(), fields: props.len() });
            }
            let mut out: Vec<(String, JsonValue)> = Vec::new();
            let mut i: usize = 0;
            while i < props.len()
                invariant
                    props@.len() == results@.len(),
                    i <= props@.len(),
                    out@.len() == i,
                    forall|k: int| 0 <= k < i ==> (#[trigger] out@[k]).0@ == props@[k].0@ && renders(results@[k], out@[k].1),
                decreases props@.len() - i,
            {
                out.push((props[i].0.clone(), val_to_json(&results[i])));
                i = i + 1;
            }
            Ok(JsonValue::Object(out))
        },
        None => {
            let mut out: Vec<JsonValue> = Vec::new();
            let mut i: usize = 0;
            while i < results.len()
                invariant
                    i <= results@.len(),
                    out@.len() == i,
                    forall|k: int| 0 <= k < i ==> renders(#[trigger] results@[k], out@[k]),
                decreases results@.len() - i,
            {
                out.push(val_to_json(&results[i]));
                i = i + 1;
            }
            Ok(JsonValue::Array(out))
        },
    }
}

/// The position of the first key that an earlier key equals, if any. Each
/// host extension that keeps per-instance state names it by a key; two
/// extensions with one key cannot both be instantiated.
pub fn find_duplicate_state_key(keys: &Vec<u64>) -> (r: Option<usize>)
    ensures
        match r {
            Some(i) => i < keys@.len() && exists|j: int| 0 <= j < i && keys@[j] == keys@[i as int],
            None => keys@.no_duplicates(),
        },
{
    let mut i: usize = 0;
    while i < keys.len()
        invariant
            i <= keys@.len(),
            keys@.subrange(0, i as int).no_duplicates(),
        decreases keys@.len() - i,
    {
        let mut j: usize = 0;
        while j < i
            invariant
                j <= i < keys@.len(),
                forall|k: int| 0 <= k < j ==> keys@[k] != keys@[i as int],
            decreases i - j,
        {
            if keys[j] == keys[i] {
                return Some(i);
            }
            j = j + 1;
        }
        proof {
            let s = keys@.subrange(0, i as int + 1);
            assert forall|a: int, b: int| 0 <= a < s.len() && 0 <= b < s.len() && a != b implies s[a] != s[b] by {
                if a < i && b < i {
                    assert(keys@.subrange(0, i as int)[a] == s[a]);
                    assert(keys@.subrange(0, i as int)[b] == s[b]);
                }
            }
        }
        i = i + 1;
    }
    assert(keys@.subrange(0, keys@.len() as int) =~= keys@);
    None
}

/// What linking a runtime feature takes.
#[derive(Clone, Copy, Debug, PartialEq, Eq, Structural)]
pub enum LinkAction {
    /// The whole of WASI Preview 2.
    Wasip2,
    /// The outgoing HTTP interfaces.
    Http,
    /// The I/O interfaces.
    Io,
    /// The random interfaces.
    Random,
    /// Nothing to link: the feature only configures the WASI context.
    ContextOnly,
    /// The feature's host extension links itself.
    HostExtension,
    /// A built-in feature this runtime does not know.
    Unknown,
    /// Not a runtime feature URI.
    NotAFeature,
}

/// What linking the runtime feature with this URI takes.
pub open spec fn link_action_of(uri: Seq<char>) -> LinkAction {
    if has_prefix(uri, "wasmtime:"@) {
        let name = uri.subrange("wasmtime:"@.len() as int, uri.len() as int);
        if name == "wasip2"@ {
            LinkAction::Wasip2
        } else if name == "http"@ {
            LinkAction::Http
        } else if name == "io"@ {
            LinkAction::Io
        } else if name == "random"@ {
            LinkAction::Random
        } else if name == "inherit-stdio"@ || name == "inherit-network"@ || name == "allow-ip-name-lookup"@ {
            LinkAction::ContextOnly
        } else {
            LinkAction::Unknown
        }
    } else if has_prefix(uri, "host:"@) {
        LinkAction::HostExtension
    } else {
        LinkAction::NotAFeature
    }
}

/// What linking the runtime feature with this URI takes.
pub fn link_action(uri: &str) -> (r: LinkAction)
    ensures
        r == link_action_of(uri@),
{
    if starts_with(uri, "wasmtime:") {
        let name = suffix_from(uri, "wasmtime:".unicode_len());
        let n = name.as_str();
        if str_eq(n, "wasip2") {
            LinkAction::Wasip2
        } else if str_eq(n, "http") {
            LinkAction::Http
        } else if str_eq(n, "io") {
            LinkAction::Io
        } else if str_eq(n, "random") {
            LinkAction::Random
        } else if str_eq(n, "inherit-stdio") || str_eq(n, "inherit-network") || str_eq(n, "allow-ip-name-lookup") {
            LinkAction::ContextOnly
        } else {
            LinkAction::Unknown
        }
    } else if starts_with(uri, "host:") {
        LinkAction::HostExtension
    } else {
        LinkAction::NotAFeature
    }
}

/// How the WASI context of an instance is set up from its runtime features.
#[derive(Clone, Copy, Debug, PartialEq, Eq, Structural)]
pub struct ContextPlan {
    pub inherit_stdio: bool,
    pub inherit_network: bool,
    pub allow_ip_name_lookup: bool,
    pub needs_http: bool,
}

/// Whether one of the named features is registered with this URI.
pub open spec fn has_feature_uri(registry: RuntimeFeatureRegistry, names: Seq<String>, uri: Seq<char>) -> bool {
    exists|k: int| 0 <= k < names.len() && (lookup(registry.runtime_features@, (#[trigger] names[k])@) matches Some(f) && f.uri@ == uri)
}

fn uri_listed(registry: &RuntimeFeatureRegistry, names: &Vec<String>, uri: &str) -> (r: bool)
    ensures
        r == has_feature_uri(*registry, names@, uri@),
{
    let mut k: usize = 0;
    while k < names.len()
        invariant
            k <= names@.len(),
            forall|m: int| 0 <= m < k ==> !(lookup(registry.runtime_features@, (#[trigger] names@[m])@) matches Some(f) && f.uri@ == uri@),
        decreases names@.len() - k,
    {
        if let Some(f) = registry.get_runtime_feature(names[k].as_str()) {
            if str_eq(f.uri.as_str(), uri) {
                return true;
            }
        }
        k = k + 1;
    }
    false
}

/// The WASI context set-up for an instance with the named runtime features.
pub fn context_plan(registry: &RuntimeFeatureRegistry, features: &Vec<String>) -> (r: ContextPlan)
    ensures
        r.inherit_stdio == has_feature_uri(*registry, features@, "wasmtime:inherit-stdio"@),
        r.inherit_network == has_feature_uri(*registry, features@, "wasmtime:inherit-network"@),
        r.allow_ip_name_lookup == has_feature_uri(*registry, features@, "wasmtime:allow-ip-name-lookup"@),
        r.needs_http == has_feature_uri(*registry, features@, "wasmtime:http"@),
{
    ContextPlan {
        inherit_stdio: uri_listed(registry, features, "wasmtime:inherit-stdio"),
        inherit_network: uri_listed(registry, features, "wasmtime:inherit-network"),
        allow_ip_name_lookup: uri_listed(registry, features, "wasmtime:allow-ip-name-lookup"),
        needs_http: uri_listed(registry, features, "wasmtime:http"),
    }
}

} // verus!
