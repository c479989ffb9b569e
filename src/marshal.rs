//! Conversion between JSON values and Component-Model values.

use vstd::prelude::*;
use crate::json::{JsonNumber, JsonValue};
use crate::registry::{entry_index, find_entry, lemma_entry_index, lookup};
use crate::text::{push_char, str_eq};

verus! {

/// A Component-Model type, as far as JSON arguments are converted to it.
/// Every other type (variants, enums, flags, results, resources, futures,
/// streams) is `Other`: no JSON value converts to it.
#[derive(Debug)]
pub enum WitType {
    Bool,
    S8,
    U8,
    S16,
    U16,
    S32,
    U32,
    S64,
    U64,
    Float32,
    Float64,
    Char,
    Str,
    List(Box<WitType>),
    Record(Vec<(String, WitType)>),
    Tuple(Vec<WitType>),
    Opt(Box<WitType>),
    Other,
}

/// A Component-Model value. A floating-point value is held as the JSON
/// number it came from or goes to; `None` stands for one that is not finite.
#[derive(Debug)]
pub enum WitVal {
    Bool(bool),
    S8(i8),
    U8(u8),
    S16(i16),
    U16(u16),
    S32(i32),
    U32(u32),
    S64(i64),
    U64(u64),
    Float32(Option<JsonNumber>),
    Float64(Option<JsonNumber>),
    Char(char),
    Str(String),
    List(Vec<WitVal>),
    Record(Vec<(String, WitVal)>),
    Tuple(Vec<WitVal>),
    Variant(String, Option<Box<WitVal>>),
    Enum(String),
    Opt(Option<Box<WitVal>>),
    ResultOk(Option<Box<WitVal>>),
    ResultErr(Option<Box<WitVal>>),
    Flags(Vec<String>),
}

/// The JSON number for a signed integer.
pub open spec fn signed_number(n: int) -> JsonNumber {
    if n < 0 { JsonNumber::NegInt(n as i64) } else { JsonNumber::PosInt(n as u64) }
}

/// Whether `v` renders as a JSON object.
pub open spec fn renders_as_object(v: WitVal) -> bool
    decreases v,
{
    match v {
        WitVal::Record(_) => true,
        WitVal::Variant(_, _) => true,
        WitVal::ResultOk(_) => true,
        WitVal::ResultErr(_) => true,
        WitVal::Opt(Some(inner)) => renders_as_object(*inner),
        _ => false,
    }
}

/// `j` is the JSON rendering of `v`: numbers as numbers (a non-finite float
/// as null), a char as a one-character string, lists and tuples as arrays,
/// an enum case as a string, flags as an array of strings, an option as its
/// value or null, and records, variants and results as objects (see
/// `renders_members`).
pub open spec fn renders(v: WitVal, j: JsonValue) -> bool
    decreases v, 1int,
{
    match v {
        WitVal::Bool(b) => j == JsonValue::Bool(b),
        WitVal::S8(n) => j == JsonValue::Number(signed_number(n as int)),
        WitVal::S16(n) => j == JsonValue::Number(signed_number(n as int)),
        WitVal::S32(n) => j == JsonValue::Number(signed_number(n as int)),
        WitVal::S64(n) => j == JsonValue::Number(signed_number(n as int)),
        WitVal::U8(n) => j == JsonValue::Number(JsonNumber::PosInt(n as u64)),
        WitVal::U16(n) => j == JsonValue::Number(JsonNumber::PosInt(n as u64)),
        WitVal::U32(n) => j == JsonValue::Number(JsonNumber::PosInt(n as u64)),
        WitVal::U64(n) => j == JsonValue::Number(JsonNumber::PosInt(n)),
        WitVal::Float32(f) => match f {
            Some(n) => j == JsonValue::Number(n),
            None => j == JsonValue::Null,
        },
        WitVal::Float64(f) => match f {
            Some(n) => j == JsonValue::Number(n),
            None => j == JsonValue::Null,
        },
        WitVal::Char(c) => j matches JsonValue::Str(s) && s@ == seq![c],
        WitVal::Str(s) => j matches JsonValue::Str(t) && t@ == s@,
        WitVal::List(items) => j matches JsonValue::Array(out) && out@.len() == items@.len()
            && forall|i: int| 0 <= i < items@.len() ==> renders(#[trigger] items@[i], out@[i]),
        WitVal::Tuple(items) => j matches JsonValue::Array(out) && out@.len() == items@.len()
            && forall|i: int| 0 <= i < items@.len() ==> renders(#[trigger] items@[i], out@[i]),
        WitVal::Enum(name) => j matches JsonValue::Str(s) && s@ == name@,
        WitVal::Flags(names) => j matches JsonValue::Array(out) && out@.len() == names@.len()
            && forall|i: int| 0 <= i < names@.len() ==> ((#[trigger] out@[i]) matches JsonValue::Str(s) && s@ == names@[i]@),
        WitVal::Opt(o) => match o {
            Some(inner) => renders(*inner, j),
            None => j == JsonValue::Null,
        },
        WitVal::Record(_) => j matches JsonValue::Object(out) && renders_members(v, out@),
        WitVal::Variant(_, _) => j matches JsonValue::Object(out) && renders_members(v, out@),
        WitVal::ResultOk(_) => j matches JsonValue::Object(out) && renders_members(v, out@),
        WitVal::ResultErr(_) => j matches JsonValue::Object(out) && renders_members(v, out@),
    }
}

/// `out` are the members of the object that `v` renders as: a record's
/// fields in order; a variant's case under "type", then its payload's
/// members if the payload renders as an object, else the payload under
/// "value"; a result's arm under "ok" or "error".
pub open spec fn renders_members(v: WitVal, out: Seq<(String, JsonValue)>) -> bool
    decreases v, 0int,
{
    match v {
        WitVal::Record(fields) => out.len() == fields@.len()
            && forall|i: int| 0 <= i < fields@.len() ==> (#[trigger] out[i]).0@ == fields@[i].0@
                && renders(fields@[i].1, out[i].1),
        WitVal::Variant(name, payload) => out.len() > 0 && out[0].0@ == "type"@
            && (out[0].1 matches JsonValue::Str(t) && t@ == name@)
            && match payload {
                None => out.len() == 1,
                Some(p) => variant_tail(*p, out.subrange(1, out.len() as int)),
            },
        WitVal::ResultOk(o) => arm_members(o, "ok"@, out),
        WitVal::ResultErr(o) => arm_members(o, "error"@, out),
        WitVal::Opt(Some(inner)) => renders_members(*inner, out),
        _ => false,
    }
}

/// The members after a variant's case, for its payload `p`.
pub open spec fn variant_tail(p: WitVal, tail: Seq<(String, JsonValue)>) -> bool
    decreases p, 2int,
{
    if renders_as_object(p) {
        renders_members(p, tail)
    } else {
        tail.len() == 1 && tail[0].0@ == "value"@ && renders(p, tail[0].1)
    }
}

/// `{ "<key>": payload }` for the arm of a result.
pub open spec fn arm_members(o: Option<Box<WitVal>>, key: Seq<char>, out: Seq<(String, JsonValue)>) -> bool
    decreases o, 0int,
{
    out.len() == 1 && out[0].0@ == key && match o {
        Some(inner) => renders(*inner, out[0].1),
        None => out[0].1 == JsonValue::Null,
    }
}

/// A value renders as an object exactly when `renders_as_object` says so.
proof fn lemma_object_rendering(v: WitVal, j: JsonValue)
    requires
        renders(v, j),
    ensures
        (j is Object) == renders_as_object(v),
        j matches JsonValue::Object(out) ==> renders_members(v, out@),
    decreases v,
{
    match v {
        WitVal::Opt(Some(inner)) => {
            lemma_object_rendering(*inner, j);
        },
        _ => {},
    }
}

fn copy_number(n: &JsonNumber) -> (r: JsonNumber)
    ensures
        r == *n,
{
    match n {
        JsonNumber::PosInt(u) => JsonNumber::PosInt(*u),
        JsonNumber::NegInt(i) => JsonNumber::NegInt(*i),
        JsonNumber::Float(t) => JsonNumber::Float(t.clone()),
    }
}

fn signed(n: i64) -> (r: JsonValue)
    ensures
        r == JsonValue::Number(signed_number(n as int)),
{
    if n < 0 {
        JsonValue::Number(JsonNumber::NegInt(n))
    } else {
        JsonValue::Number(JsonNumber::PosInt(n as u64))
    }
}

fn render_list(items: &Vec<WitVal>) -> (r: Vec<JsonValue>)
    ensures
        r@.len() == items@.len(),
        forall|i: int| 0 <= i < items@.len() ==> renders(#[trigger] items@[i], r@[i]),
    decreases items@,
{
    let mut out: Vec<JsonValue> = Vec::new();
    let mut i: usize = 0;
    while i < items.len()
        invariant
            i <= items@.len(),
            out@.len() == i,
            forall|k: int| 0 <= k < i ==> renders(#[trigger] items@[k], out@[k]),
        decreases items@.len() - i,
    {
        out.push(val_to_json(&items[i]));
        i = i + 1;
    }
    out
}

fn render_record(fields: &Vec<(String, WitVal)>) -> (r: Vec<(String, JsonValue)>)
    ensures
        r@.len() == fields@.len(),
        forall|i: int| 0 <= i < fields@.len() ==> (#[trigger] r@[i]).0@ == fields@[i].0@ && renders(fields@[i].1, r@[i].1),
    decreases fields@,
{
    let mut out: Vec<(String, JsonValue)> = Vec::new();
    let mut i: usize = 0;
    while i < fields.len()
        invariant
            i <= fields@.len(),
            out@.len() == i,
            forall|k: int| 0 <= k < i ==> (#[trigger] out@[k]).0@ == fields@[k].0@ && renders(fields@[k].1, out@[k].1),
        decreases fields@.len() - i,
    {
        assert(decreases_to!(fields@ => fields@[i as int]));
        out.push((fields[i].0.clone(), val_to_json(&fields[i].1)));
        i = i + 1;
    }
    out
}

fn render_variant(name: &String, payload: &Option<Box<WitVal>>) -> (r: JsonValue)
    ensures
        renders(WitVal::Variant(*name, *payload), r),
    decreases payload,
{
    let mut out: Vec<(String, JsonValue)> = Vec::new();
    out.push(("type".to_string(), JsonValue::Str(name.clone())));
    match payload {
        None => {},
        Some(p) => {
            let pj = val_to_json(&**p);
            proof {
                lemma_object_rendering(**p, pj);
            }
            match pj {
                JsonValue::Object(members) => {
                    let mut members = members;
                    let ghost m0 = members@;
                    out.append(&mut members);
                    assert(out@.subrange(1, out@.len() as int) =~= m0);
                    assert(variant_tail(**p, out@.subrange(1, out@.len() as int)));
                },
                other => {
                    out.push(("value".to_string(), other));
                    assert(out@.subrange(1, out@.len() as int)[0] == out@[1]);
                    assert(variant_tail(**p, out@.subrange(1, out@.len() as int)));
                },
            }
        },
    }
    assert(renders_members(WitVal::Variant(*name, *payload), out@));
    JsonValue::Object(out)
}

fn render_flags(names: &Vec<String>) -> (r: JsonValue)
    ensures
        renders(WitVal::Flags(*names), r),
{
    let mut out: Vec<JsonValue> = Vec::new();
    let mut i: usize = 0;
    while i < names.len()
        invariant
            i <= names@.len(),
            out@.len() == i,
            forall|k: int| 0 <= k < i ==> ((#[trigger] out@[k]) matches JsonValue::Str(s) && s@ == names@[k]@),
        decreases names@.len() - i,
    {
        out.push(JsonValue::Str(names[i].clone()));
        i = i + 1;
    }
    JsonValue::Array(out)
}

fn render_arm(key: &str, o: &Option<Box<WitVal>>) -> (r: Vec<(String, JsonValue)>)
    ensures
        arm_members(*o, key@, r@),
    decreases o,
{
    let inner = match o {
        Some(x) => val_to_json(&**x),
        None => JsonValue::Null,
    };
    let mut out: Vec<(String, JsonValue)> = Vec::new();
    out.push((key.to_string(), inner));
    out
}

fn render_char(c: char) -> (r: JsonValue)
    ensures
        renders(WitVal::Char(c), r),
{
    let mut s = String::new();
    push_char(&mut s, c);
    assert(s@ =~= seq![c]);
    JsonValue::Str(s)
}

/// The JSON rendering of a value.
pub fn val_to_json(v: &WitVal) -> (r: JsonValue)
    ensures
        renders(*v, r),
    decreases v,
{
    match v {
        WitVal::Bool(b) => JsonValue::Bool(*b),
        WitVal::S8(n) => signed(*n as i64),
        WitVal::S16(n) => signed(*n as i64),
        WitVal::S32(n) => signed(*n as i64),
        WitVal::S64(n) => signed(*n),
        WitVal::U8(n) => JsonValue::Number(JsonNumber::PosInt(*n as u64)),
        WitVal::U16(n) => JsonValue::Number(JsonNumber::PosInt(*n as u64)),
        WitVal::U32(n) => JsonValue::Number(JsonNumber::PosInt(*n as u64)),
        WitVal::U64(n) => JsonValue::Number(JsonNumber::PosInt(*n)),
        WitVal::Float32(f) | WitVal::Float64(f) => match f {
            Some(n) => JsonValue::Number(copy_number(n)),
            None => JsonValue::Null,
        },
        WitVal::Char(c) => render_char(*c),
        WitVal::Str(s) => JsonValue::Str(s.clone()),
        WitVal::List(items) | WitVal::Tuple(items) => {
            assert(decreases_to!(v => items));
            JsonValue::Array(render_list(items))
        },
        WitVal::Record(fields) => {
            assert(decreases_to!(v => fields));
            let out = render_record(fields);
            assert(renders_members(*v, out@));
            JsonValue::Object(out)
        },
        WitVal::Variant(name, payload) => {
            assert(decreases_to!(v => payload));
            render_variant(name, payload)
        },
        WitVal::Enum(name) => JsonValue::Str(name.clone()),
        WitVal::Flags(names) => render_flags(names),
        WitVal::Opt(o) => match o {
            Some(inner) => val_to_json(&**inner),
            None => JsonValue::Null,
        },
        WitVal::ResultOk(o) => {
            assert(decreases_to!(v => o));
            let out = render_arm("ok", o);
            assert(renders_members(*v, out@));
            JsonValue::Object(out)
        },
        WitVal::ResultErr(o) => {
            assert(decreases_to!(v => o));
            let out = render_arm("error", o);
            assert(renders_members(*v, out@));
            JsonValue::Object(out)
        },
    }
}

/// No value of type `t` is accepted from `j`.
pub open spec fn rejects(j: JsonValue, t: WitType) -> bool {
    forall|v: WitVal| !accepts(j, t, v)
}

/// A record is rejected when a member names no field, or a field is
/// rejected or missing without being an option.
proof fn lemma_record_rejects(members: Vec<(String, JsonValue)>, fields: Vec<(String, WitType)>)
    requires
        (exists|m: int| 0 <= m < members@.len() && !has_field(fields@, (#[trigger] members@[m]).0@))
        || (exists|i: int| 0 <= i < fields@.len() && match lookup(members@, (#[trigger] fields@[i]).0@) {
            Some(x) => rejects(x, fields@[i].1),
            None => !(fields@[i].1 is Opt),
        }),
    ensures
        rejects(JsonValue::Object(members), WitType::Record(fields)),
{
    assert forall|v: WitVal| !accepts(JsonValue::Object(members), WitType::Record(fields), v) by {
        if accepts(JsonValue::Object(members), WitType::Record(fields), v) {
            let vals = v->Record_0;
            if exists|m: int| 0 <= m < members@.len() && !has_field(fields@, (#[trigger] members@[m]).0@) {
                let m = choose|m: int| 0 <= m < members@.len() && !has_field(fields@, (#[trigger] members@[m]).0@);
                assert(has_field(fields@, members@[m].0@));
            } else {
                let i = choose|i: int| 0 <= i < fields@.len() && match lookup(members@, (#[trigger] fields@[i]).0@) {
                    Some(x) => rejects(x, fields@[i].1),
                    None => !(fields@[i].1 is Opt),
                };
                assert(vals@[i].0@ == fields@[i].0@);
                match lookup(members@, fields@[i].0@) {
                    Some(x) => {
                        assert(accepts(x, fields@[i].1, vals@[i].1));
                    },
                    None => {},
                }
            }
        }
    }
}

proof fn lemma_accepts_char(s: String, c: char)
    requires
        s@ == seq![c],
    ensures
        accepts(JsonValue::Str(s), WitType::Char, WitVal::Char(c)),
{
}

fn as_u64(n: &JsonNumber) -> (r: Option<u64>)
    ensures
        r == number_u64(*n),
{
    match n {
        JsonNumber::PosInt(u) => Some(*u),
        _ => None,
    }
}

fn as_i64(n: &JsonNumber) -> (r: Option<i64>)
    ensures
        r == number_i64(*n),
{
    match n {
        JsonNumber::PosInt(u) => if *u <= i64::MAX as u64 { Some(*u as i64) } else { None },
        JsonNumber::NegInt(i) => Some(*i),
        JsonNumber::Float(_) => None,
    }
}

fn convert_list(items: &Vec<JsonValue>, et: &WitType) -> (r: Result<Vec<WitVal>, MarshalError>)
    ensures
        r matches Ok(vals) ==> vals@.len() == items@.len()
            && forall|i: int| 0 <= i < items@.len() ==> accepts(items@[i], *et, #[trigger] vals@[i]),
        r is Err ==> exists|i: int| 0 <= i < items@.len() && #[trigger] rejects(items@[i], *et),
    decreases et, 1int,
{
    let mut vals: Vec<WitVal> = Vec::new();
    let mut i: usize = 0;
    while i < items.len()
        invariant
            i <= items@.len(),
            vals@.len() == i,
            forall|k: int| 0 <= k < i ==> accepts(items@[k], *et, #[trigger] vals@[k]),
        decreases items@.len() - i,
    {
        match json_to_val(&items[i], et) {
            Ok(v) => vals.push(v),
            Err(e) => {
                return Err(e);
            },
        }
        i = i + 1;
    }
    Ok(vals)
}

fn convert_tuple(items: &Vec<JsonValue>, ts: &Vec<WitType>) -> (r: Result<Vec<WitVal>, MarshalError>)
    requires
        items@.len() == ts@.len(),
    ensures
        r matches Ok(vals) ==> vals@.len() == ts@.len()
            && forall|i: int| 0 <= i < ts@.len() ==> accepts(items@[i], ts@[i], #[trigger] vals@[i]),
        r is Err ==> exists|i: int| 0 <= i < ts@.len() && #[trigger] rejects(items@[i], ts@[i]),
    decreases ts, 1int,
{
    let mut vals: Vec<WitVal> = Vec::new();
    let mut i: usize = 0;
    while i < ts.len()
        invariant
            i <= ts@.len(),
            items@.len() == ts@.len(),
            vals@.len() == i,
            forall|k: int| 0 <= k < i ==> accepts(items@[k], ts@[k], #[trigger] vals@[k]),
        decreases ts@.len() - i,
    {
        assert(decreases_to!(ts => ts@[i as int]));
        match json_to_val(&items[i], &ts[i]) {
            Ok(v) => vals.push(v),
            Err(e) => {
                return Err(e);
            },
        }
        i = i + 1;
    }
    Ok(vals)
}

/// Whether some field of the record is named `key`.
fn is_field(fields: &Vec<(String, WitType)>, key: &str) -> (r: bool)
    ensures
        r == has_field(fields@, key@),
{
    let mut i: usize = 0;
    while i < fields.len()
        invariant
            i <= fields@.len(),
            forall|k: int| 0 <= k < i ==> (#[trigger] fields@[k]).0@ != key@,
        decreases fields@.len() - i,
    {
        if str_eq(fields[i].0.as_str(), key) {
            return true;
        }
        i = i + 1;
    }
    false
}

fn convert_record(members: &Vec<(String, JsonValue)>, fields: &Vec<(String, WitType)>) -> (r: Result<Vec<(String, WitVal)>, MarshalError>)
    ensures
        r matches Ok(vals) ==> vals@.len() == fields@.len()
            && (forall|m: int| 0 <= m < members@.len() ==> has_field(fields@, (#[trigger] members@[m]).0@))
            && forall|i: int| 0 <= i < fields@.len() ==> (#[trigger] vals@[i]).0@ == fields@[i].0@
                && match lookup(members@, fields@[i].0@) {
                    Some(x) => accepts(x, fields@[i].1, vals@[i].1),
                    None => fields@[i].1 is Opt && vals@[i].1 == WitVal::Opt(None),
                },
        r is Err ==> {
            ||| exists|m: int| 0 <= m < members@.len() && !has_field(fields@, (#[trigger] members@[m]).0@)
            ||| exists|i: int| 0 <= i < fields@.len() && match lookup(members@, (#[trigger] fields@[i]).0@) {
                Some(x) => rejects(x, fields@[i].1),
                None => !(fields@[i].1 is Opt),
            }
        },
    decreases fields, 1int,
{
    let mut vals: Vec<(String, WitVal)> = Vec::new();
    let mut i: usize = 0;
    while i < fields.len()
        invariant
            i <= fields@.len(),
            vals@.len() == i,
            forall|k: int| 0 <= k < i ==> (#[trigger] vals@[k]).0@ == fields@[k].0@
                && match lookup(members@, fields@[k].0@) {
                    Some(x) => accepts(x, fields@[k].1, vals@[k].1),
                    None => fields@[k].1 is Opt && vals@[k].1 == WitVal::Opt(None),
                },
        decreases fields@.len() - i,
    {
        let name = &fields[i].0;
        let ty = &fields[i].1;
        assert(decreases_to!(fields => fields@[i as int]));
        proof {
            lemma_entry_index(members@, name@);
        }
        match find_entry(members, name.as_str()) {
            Some(m) => {
                assert(lookup(members@, name@) == Some(members@[m as int].1));
                match json_to_val(&members[m].1, ty) {
                    Ok(v) => vals.push((name.clone(), v)),
                    Err(e) => {
                        assert(fields@[i as int].0@ == name@);
                        return Err(e);
                    },
                }
            },
            None => {
                match ty {
                    WitType::Opt(_) => vals.push((name.clone(), WitVal::Opt(None))),
                    _ => {
                        assert(fields@[i as int].0@ == name@);
                        return Err(MarshalError::MissingField(name.clone()));
                    },
                }
            },
        }
        i = i + 1;
    }
    let mut m: usize = 0;
    while m < members.len()
        invariant
            m <= members@.len(),
            forall|k: int| 0 <= k < m ==> has_field(fields@, (#[trigger] members@[k]).0@),
        decreases members@.len() - m,
    {
        if !is_field(fields, members[m].0.as_str()) {
            return Err(MarshalError::UnexpectedField(members[m].0.clone()));
        }
        m = m + 1;
    }
    Ok(vals)
}

fn char_of(s: &String) -> (r: Option<char>)
    ensures
        match r {
            Some(c) => s@.len() == 1 && c == s@[0],
            None => s@.len() != 1,
        },
{
    if s.as_str().unicode_len() == 1 {
        Some(s.as_str().get_char(0))
    } else {
        None
    }
}

/// Converts a JSON value to a value of type `t`.
pub fn json_to_val(j: &JsonValue, t: &WitType) -> (r: Result<WitVal, MarshalError>)
    ensures
        r matches Ok(v) ==> accepts(*j, *t, v),
        r is Err ==> rejects(*j, *t),
    decreases t, 0int,
{
    match t {
        WitType::Opt(inner) => {
            if let JsonValue::Null = j {
                return Ok(WitVal::Opt(None));
            }
            assert(decreases_to!(t => inner));
            return match json_to_val(j, &**inner) {
                Ok(v) => Ok(WitVal::Opt(Some(Box::new(v)))),
                Err(e) => {
                    assert forall|v: WitVal| !accepts(*j, *t, v) by {
                        match v {
                            WitVal::Opt(Some(b)) => {
                                assert(!accepts(*j, **inner, *b));
                            },
                            _ => {},
                        }
                    }
                    Err(e)
                },
            };
        },
        _ => {},
    }
    match t {
        WitType::Bool => match j {
            JsonValue::Bool(b) => Ok(WitVal::Bool(*b)),
            _ => Err(MarshalError::TypeMismatch),
        },
        WitType::Str => match j {
            JsonValue::Str(s) => Ok(WitVal::Str(s.clone())),
            _ => Err(MarshalError::TypeMismatch),
        },
        WitType::Char => match j {
            JsonValue::Str(s) => match char_of(s) {
                Some(c) => {
                    assert(s@ =~= seq![c]);
                    proof {
                        lemma_accepts_char(*s, c);
                    }
                    Ok(WitVal::Char(c))
                },
                None => {
                    assert forall|v: WitVal| !accepts(*j, *t, v) by {
                        match v {
                            WitVal::Char(c) => {
                                if s@ == seq![c] {
                                    assert(s@.len() == 1);
                                }
                            },
                            _ => {},
                        }
                    }
                    Err(MarshalError::NotOneChar)
                },
            },
            _ => Err(MarshalError::TypeMismatch),
        },
        WitType::U8 => match j {
            JsonValue::Number(n) => match as_u64(n) {
                Some(u) => if u <= u8::MAX as u64 { Ok(WitVal::U8(u as u8)) } else { Err(MarshalError::OutOfRange) },
                None => Err(MarshalError::OutOfRange),
            },
            _ => Err(MarshalError::TypeMismatch),
        },
        WitType::U16 => match j {
            JsonValue::Number(n) => match as_u64(n) {
                Some(u) => if u <= u16::MAX as u64 { Ok(WitVal::U16(u as u16)) } else { Err(MarshalError::OutOfRange) },
                None => Err(MarshalError::OutOfRange),
            },
            _ => Err(MarshalError::TypeMismatch),
        },
        WitType::U32 => match j {
            JsonValue::Number(n) => match as_u64(n) {
                Some(u) => if u <= u32::MAX as u64 { Ok(WitVal::U32(u as u32)) } else { Err(MarshalError::OutOfRange) },
                None => Err(MarshalError::OutOfRange),
            },
            _ => Err(MarshalError::TypeMismatch),
        },
        WitType::U64 => match j {
            JsonValue::Number(n) => match as_u64(n) {
                Some(u) => Ok(WitVal::U64(u)),
                None => Err(MarshalError::OutOfRange),
            },
            _ => Err(MarshalError::TypeMismatch),
        },
        WitType::S8 => match j {
            JsonValue::Number(n) => match as_i64(n) {
                Some(i) => if i8::MIN as i64 <= i && i <= i8::MAX as i64 { Ok(WitVal::S8(i as i8)) } else { Err(MarshalError::OutOfRange) },
                None => Err(MarshalError::OutOfRange),
            },
            _ => Err(MarshalError::TypeMismatch),
        },
        WitType::S16 => match j {
            JsonValue::Number(n) => match as_i64(n) {
                Some(i) => if i16::MIN as i64 <= i && i <= i16::MAX as i64 { Ok(WitVal::S16(i as i16)) } else { Err(MarshalError::OutOfRange) },
                None => Err(MarshalError::OutOfRange),
            },
            _ => Err(MarshalError::TypeMismatch),
        },
        WitType::S32 => match j {
            JsonValue::Number(n) => match as_i64(n) {
                Some(i) => if i32::MIN as i64 <= i && i <= i32::MAX as i64 { Ok(WitVal::S32(i as i32)) } else { Err(MarshalError::OutOfRange) },
                None => Err(MarshalError::OutOfRange),
            },
            _ => Err(MarshalError::TypeMismatch),
        },
        WitType::S64 => match j {
            JsonValue::Number(n) => match as_i64(n) {
                Some(i) => Ok(WitVal::S64(i)),
                None => Err(MarshalError::OutOfRange),
            },
            _ => Err(MarshalError::TypeMismatch),
        },
        WitType::Float32 => match j {
            JsonValue::Number(n) => Ok(WitVal::Float32(Some(copy_number(n)))),
            _ => Err(MarshalError::TypeMismatch),
        },
        WitType::Float64 => match j {
            JsonValue::Number(n) => Ok(WitVal::Float64(Some(copy_number(n)))),
            _ => Err(MarshalError::TypeMismatch),
        },
        WitType::List(et) => match j {
            JsonValue::Array(items) => {
                assert(decreases_to!(t => et));
                match convert_list(items, &**et) {
                    Ok(vals) => Ok(WitVal::List(vals)),
                    Err(e) => {
                        assert forall|v: WitVal| !accepts(*j, *t, v) by {
                            match v {
                                WitVal::List(vals) => {
                                    if vals@.len() == items@.len() {
                                        let i = choose|i: int| 0 <= i < items@.len() && #[trigger] rejects(items@[i], **et);
                                        assert(!accepts(items@[i], **et, vals@[i]));
                                    }
                                },
                                _ => {},
                            }
                        }
                        Err(e)
                    },
                }
            }
            _ => Err(MarshalError::TypeMismatch),
        },
        WitType::Tuple(ts) => match j {
            JsonValue::Array(items) => {
                if items.len() != ts.len() {
                    return Err(MarshalError::TupleLength { expected: ts.len(), got: items.len() });
                }
                assert(decreases_to!(t => ts));
                match convert_tuple(items, ts) {
                    Ok(vals) => Ok(WitVal::Tuple(vals)),
                    Err(e) => {
                        assert forall|v: WitVal| !accepts(*j, *t, v) by {
                            match v {
                                WitVal::Tuple(vals) => {
                                    if vals@.len() == ts@.len() {
                                        let i = choose|i: int| 0 <= i < ts@.len() && #[trigger] rejects(items@[i], ts@[i]);
                                        assert(!accepts(items@[i], ts@[i], vals@[i]));
                                    }
                                },
                                _ => {},
                            }
                        }
                        Err(e)
                    },
                }
            }
            _ => Err(MarshalError::TypeMismatch),
        },
        WitType::Record(fields) => match j {
            JsonValue::Object(members) => {
                assert(decreases_to!(t => fields));
                match convert_record(members, fields) {
                    Ok(vals) => Ok(WitVal::Record(vals)),
                    Err(e) => {
                        proof {
                            lemma_record_rejects(*members, *fields);
                        }
                        Err(e)
                    },
                }
            }
            _ => Err(MarshalError::TypeMismatch),
        },
        _ => Err(MarshalError::TypeMismatch),
    }
}


/// Why a JSON value could not be converted.
#[derive(Debug)]
pub enum MarshalError {
    /// The JSON value does not have the shape of the type.
    TypeMismatch,
    /// A number lies outside the range of its integer type.
    OutOfRange,
    /// A string for a `char` does not hold exactly one character.
    NotOneChar,
    /// An array for a tuple has another length.
    TupleLength { expected: usize, got: usize },
    /// A record field that is not an option is missing.
    MissingField(String),
    /// An object member names no field of the record.
    UnexpectedField(String),
}

/// The number as an unsigned integer, if it is one.
pub open spec fn number_u64(n: JsonNumber) -> Option<u64> {
    match n {
        JsonNumber::PosInt(u) => Some(u),
        _ => None,
    }
}

/// The number as a signed integer, if it is one that fits.
pub open spec fn number_i64(n: JsonNumber) -> Option<i64> {
    match n {
        JsonNumber::PosInt(u) => if u <= i64::MAX as u64 { Some(u as i64) } else { None },
        JsonNumber::NegInt(i) => Some(i),
        JsonNumber::Float(_) => None,
    }
}

pub open spec fn has_field(fields: Seq<(String, WitType)>, key: Seq<char>) -> bool {
    exists|i: int| 0 <= i < fields.len() && (#[trigger] fields[i]).0@ == key
}

/// `v` is what `j` converts to as a value of type `t`: numbers within the
/// range of their type, a one-character string as a char, arrays as lists
/// and as tuples of the same length, objects as records (a missing field
/// of option type is `none`, any other missing field or any extra member
/// fails), null as `none` and anything else as `some` of its conversion.
pub open spec fn accepts(j: JsonValue, t: WitType, v: WitVal) -> bool
    decreases t,
{
    match t {
        WitType::Bool => j matches JsonValue::Bool(b) && v == WitVal::Bool(b),
        WitType::Str => j matches JsonValue::Str(s) && (v matches WitVal::Str(s2) && s2@ == s@),
        WitType::Char => j matches JsonValue::Str(s) && (v matches WitVal::Char(c) && s@ == seq![c]),
        WitType::U8 => j matches JsonValue::Number(n) && (number_u64(n) matches Some(u) && u <= u8::MAX && v == WitVal::U8(u as u8)),
        WitType::U16 => j matches JsonValue::Number(n) && (number_u64(n) matches Some(u) && u <= u16::MAX && v == WitVal::U16(u as u16)),
        WitType::U32 => j matches JsonValue::Number(n) && (number_u64(n) matches Some(u) && u <= u32::MAX && v == WitVal::U32(u as u32)),
        WitType::U64 => j matches JsonValue::Number(n) && (number_u64(n) matches Some(u) && v == WitVal::U64(u)),
        WitType::S8 => j matches JsonValue::Number(n) && (number_i64(n) matches Some(i) && i8::MIN <= i <= i8::MAX && v == WitVal::S8(i as i8)),
        WitType::S16 => j matches JsonValue::Number(n) && (number_i64(n) matches Some(i) && i16::MIN <= i <= i16::MAX && v == WitVal::S16(i as i16)),
        WitType::S32 => j matches JsonValue::Number(n) && (number_i64(n) matches Some(i) && i32::MIN <= i <= i32::MAX && v == WitVal::S32(i as i32)),
        WitType::S64 => j matches JsonValue::Number(n) && (number_i64(n) matches Some(i) && v == WitVal::S64(i)),
        WitType::Float32 => j matches JsonValue::Number(n) && v == WitVal::Float32(Some(n)),
        WitType::Float64 => j matches JsonValue::Number(n) && v == WitVal::Float64(Some(n)),
        WitType::List(et) => j matches JsonValue::Array(items) && (v matches WitVal::List(vals)
            && vals@.len() == items@.len()
            && forall|i: int| 0 <= i < items@.len() ==> accepts(items@[i], *et, #[trigger] vals@[i])),
        WitType::Tuple(ts) => j matches JsonValue::Array(items) && (v matches WitVal::Tuple(vals)
            && items@.len() == ts@.len() && vals@.len() == ts@.len()
            && forall|i: int| 0 <= i < ts@.len() ==> accepts(items@[i], ts@[i], #[trigger] vals@[i])),
        WitType::Record(fields) => j matches JsonValue::Object(members) && (v matches WitVal::Record(vals)
            && vals@.len() == fields@.len()
            && (forall|m: int| 0 <= m < members@.len() ==> has_field(fields@, (#[trigger] members@[m]).0@))
            && forall|i: int| 0 <= i < fields@.len() ==> (#[trigger] vals@[i]).0@ == fields@[i].0@
                && match lookup(members@, fields@[i].0@) {
                    Some(x) => accepts(x, fields@[i].1, vals@[i].1),
                    None => fields@[i].1 is Opt && vals@[i].1 == WitVal::Opt(None),
                }),
        WitType::Opt(inner) => if j is Null {
            v == WitVal::Opt(None)
        } else {
            v matches WitVal::Opt(Some(b)) && accepts(j, *inner, *b)
        },
        WitType::Other => false,
    }
}

pub open spec fn canonical_text(j: JsonValue, c: JsonValue) -> bool {
    j matches JsonValue::Str(s) && (c matches JsonValue::Str(s2) && s2@ == s@)
}

pub open spec fn canonical_unsigned(j: JsonValue, c: JsonValue) -> bool {
    j matches JsonValue::Number(n) && (number_u64(n) matches Some(u) && c == JsonValue::Number(JsonNumber::PosInt(u)))
}

pub open spec fn canonical_signed(j: JsonValue, c: JsonValue) -> bool {
    j matches JsonValue::Number(n) && (number_i64(n) matches Some(i) && c == JsonValue::Number(signed_number(i as int)))
}

/// The JSON value that a value accepted from `j` as type `t` renders back
/// to: integers in canonical form, single characters and strings as they
/// were, record members in field order with absent options as null.
pub open spec fn canonical(j: JsonValue, t: WitType, c: JsonValue) -> bool
    decreases t,
{
    match t {
        WitType::Bool => c == j,
        WitType::Float32 => c == j,
        WitType::Float64 => c == j,
        WitType::Str => canonical_text(j, c),
        WitType::Char => canonical_text(j, c),
        WitType::U8 => canonical_unsigned(j, c),
        WitType::U16 => canonical_unsigned(j, c),
        WitType::U32 => canonical_unsigned(j, c),
        WitType::U64 => canonical_unsigned(j, c),
        WitType::S8 => canonical_signed(j, c),
        WitType::S16 => canonical_signed(j, c),
        WitType::S32 => canonical_signed(j, c),
        WitType::S64 => canonical_signed(j, c),
        WitType::List(et) => j matches JsonValue::Array(items) && (c matches JsonValue::Array(out)
            && out@.len() == items@.len()
            && forall|i: int| 0 <= i < items@.len() ==> canonical(items@[i], *et, #[trigger] out@[i])),
        WitType::Tuple(ts) => j matches JsonValue::Array(items) && (c matches JsonValue::Array(out)
            && out@.len() == ts@.len() && items@.len() == ts@.len()
            && forall|i: int| 0 <= i < ts@.len() ==> canonical(items@[i], ts@[i], #[trigger] out@[i])),
        WitType::Record(fields) => j matches JsonValue::Object(members) && (c matches JsonValue::Object(out)
            && out@.len() == fields@.len()
            && forall|i: int| 0 <= i < fields@.len() ==> (#[trigger] out@[i]).0@ == fields@[i].0@
                && match lookup(members@, fields@[i].0@) {
                    Some(x) => canonical(x, fields@[i].1, out@[i].1),
                    None => out@[i].1 == JsonValue::Null,
                }),
        WitType::Opt(inner) => if j is Null { c == JsonValue::Null } else { canonical(j, *inner, c) },
        WitType::Other => false,
    }
}

/// Converting a JSON value to a value of a type and rendering the value
/// back gives the canonical form of the JSON value.
pub proof fn lemma_round_trip(j: JsonValue, t: WitType, v: WitVal, c: JsonValue)
    requires
        accepts(j, t, v),
        renders(v, c),
    ensures
        canonical(j, t, c),
    decreases t,
{
    match t {
        WitType::List(et) => {
            let items = j->Array_0;
            let vals = v->List_0;
            assert(v == WitVal::List(vals));
            assert(c matches JsonValue::Array(o) && o@.len() == vals@.len() && forall|i: int| 0 <= i < vals@.len() ==> renders(#[trigger] vals@[i], o@[i]));
            let out = c->Array_0;
            assert forall|i: int| 0 <= i < items@.len() implies canonical(items@[i], *et, #[trigger] out@[i]) by {
                assert(accepts(items@[i], *et, vals@[i]));
                assert(renders(vals@[i], out@[i]));
                lemma_round_trip(items@[i], *et, vals@[i], out@[i]);
            }
        },
        WitType::Tuple(ts) => {
            let items = j->Array_0;
            let vals = v->Tuple_0;
            assert(v == WitVal::Tuple(vals));
            assert(c matches JsonValue::Array(o) && o@.len() == vals@.len() && forall|i: int| 0 <= i < vals@.len() ==> renders(#[trigger] vals@[i], o@[i]));
            let out = c->Array_0;
            assert forall|i: int| 0 <= i < ts@.len() implies canonical(items@[i], ts@[i], #[trigger] out@[i]) by {
                assert(accepts(items@[i], ts@[i], vals@[i]));
                assert(renders(vals@[i], out@[i]));
                lemma_round_trip(items@[i], ts@[i], vals@[i], out@[i]);
            }
        },
        WitType::Record(fields) => {
            let members = j->Object_0;
            let vals = v->Record_0;
            let out = c->Object_0;
            assert(renders_members(v, out@));
            assert forall|i: int| 0 <= i < fields@.len() implies (#[trigger] out@[i]).0@ == fields@[i].0@
                && match lookup(members@, fields@[i].0@) {
                    Some(x) => canonical(x, fields@[i].1, out@[i].1),
                    None => out@[i].1 == JsonValue::Null,
                } by {
                assert(vals@[i].0@ == fields@[i].0@);
                assert(renders(vals@[i].1, out@[i].1));
                match lookup(members@, fields@[i].0@) {
                    Some(x) => {
                        lemma_round_trip(x, fields@[i].1, vals@[i].1, out@[i].1);
                    },
                    None => {},
                }
            }
        },
        WitType::Opt(inner) => {
            if !(j is Null) {
                let b = v->Opt_0->0;
                lemma_round_trip(j, *inner, *b, c);
            }
        },
        WitType::Char => {},
        _ => {},
    }
}

} // verus!
