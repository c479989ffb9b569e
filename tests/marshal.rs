use composable_runtime::invoke::{check_arg_count, find_duplicate_state_key, shape_results, InvokeError};
use composable_runtime::json::{JsonNumber, JsonValue};
use composable_runtime::marshal::{json_to_val, val_to_json, MarshalError, WitType, WitVal};

fn num(u: u64) -> JsonValue {
    JsonValue::Number(JsonNumber::PosInt(u))
}

fn text(s: &str) -> JsonValue {
    JsonValue::Str(s.to_string())
}

fn object(members: Vec<(&str, JsonValue)>) -> JsonValue {
    JsonValue::Object(members.into_iter().map(|(k, v)| (k.to_string(), v)).collect())
}

#[test]
fn integers_are_range_checked() {
    assert!(matches!(json_to_val(&num(255), &WitType::U8), Ok(WitVal::U8(255))));
    assert!(matches!(json_to_val(&num(256), &WitType::U8), Err(MarshalError::OutOfRange)));
    assert!(matches!(
        json_to_val(&JsonValue::Number(JsonNumber::NegInt(-1)), &WitType::U32),
        Err(MarshalError::OutOfRange)
    ));
    assert!(matches!(
        json_to_val(&JsonValue::Number(JsonNumber::NegInt(-128)), &WitType::S8),
        Ok(WitVal::S8(-128))
    ));
    assert!(matches!(
        json_to_val(&JsonValue::Number(JsonNumber::NegInt(-129)), &WitType::S8),
        Err(MarshalError::OutOfRange)
    ));
    assert!(matches!(json_to_val(&num(u64::MAX), &WitType::S64), Err(MarshalError::OutOfRange)));
    assert!(matches!(json_to_val(&num(7), &WitType::S64), Ok(WitVal::S64(7))));
    assert!(matches!(
        json_to_val(&JsonValue::Number(JsonNumber::Float("1.5".to_string())), &WitType::U64),
        Err(MarshalError::OutOfRange)
    ));
}

#[test]
fn floats_keep_their_number() {
    let j = JsonValue::Number(JsonNumber::Float("1.5".to_string()));
    match json_to_val(&j, &WitType::Float64) {
        Ok(WitVal::Float64(Some(JsonNumber::Float(t)))) => assert_eq!(t, "1.5"),
        other => panic!("unexpected {:?}", other),
    }
    assert!(matches!(val_to_json(&WitVal::Float32(None)), JsonValue::Null));
}

#[test]
fn chars_need_exactly_one_character() {
    assert!(matches!(json_to_val(&text("x"), &WitType::Char), Ok(WitVal::Char('x'))));
    assert!(matches!(json_to_val(&text("xy"), &WitType::Char), Err(MarshalError::NotOneChar)));
    assert!(matches!(json_to_val(&text(""), &WitType::Char), Err(MarshalError::NotOneChar)));
    match val_to_json(&WitVal::Char('é')) {
        JsonValue::Str(s) => assert_eq!(s, "é"),
        other => panic!("unexpected {:?}", other),
    }
}

#[test]
fn type_mismatch_is_refused() {
    assert!(matches!(json_to_val(&text("1"), &WitType::U8), Err(MarshalError::TypeMismatch)));
    assert!(matches!(json_to_val(&JsonValue::Bool(true), &WitType::Str), Err(MarshalError::TypeMismatch)));
    assert!(matches!(json_to_val(&num(1), &WitType::Other), Err(MarshalError::TypeMismatch)));
}

#[test]
fn tuples_need_matching_length() {
    let ty = WitType::Tuple(vec![WitType::U8, WitType::Str]);
    let ok = JsonValue::Array(vec![num(1), text("a")]);
    match json_to_val(&ok, &ty) {
        Ok(WitVal::Tuple(items)) => {
            assert!(matches!(items[0], WitVal::U8(1)));
            assert!(matches!(&items[1], WitVal::Str(s) if s == "a"));
        }
        other => panic!("unexpected {:?}", other),
    }
    let short = JsonValue::Array(vec![num(1)]);
    assert!(matches!(json_to_val(&short, &ty), Err(MarshalError::TupleLength { expected: 2, got: 1 })));
}

#[test]
fn records_fill_missing_options_and_refuse_extras() {
    let ty = WitType::Record(vec![
        ("name".to_string(), WitType::Str),
        ("age".to_string(), WitType::Opt(Box::new(WitType::U32))),
    ]);
    match json_to_val(&object(vec![("name", text("ann"))]), &ty) {
        Ok(WitVal::Record(fields)) => {
            assert_eq!(fields[0].0, "name");
            assert!(matches!(&fields[1].1, WitVal::Opt(None)));
        }
        other => panic!("unexpected {:?}", other),
    }
    assert!(matches!(
        json_to_val(&object(vec![("age", num(3))]), &ty),
        Err(MarshalError::MissingField(f)) if f == "name"
    ));
    assert!(matches!(
        json_to_val(&object(vec![("name", text("ann")), ("extra", num(1))]), &ty),
        Err(MarshalError::UnexpectedField(f)) if f == "extra"
    ));
}

#[test]
fn round_trip_gives_canonical_json() {
    let ty = WitType::Record(vec![
        ("tags".to_string(), WitType::List(Box::new(WitType::Char))),
        ("count".to_string(), WitType::Opt(Box::new(WitType::S16))),
        ("note".to_string(), WitType::Opt(Box::new(WitType::Str))),
    ]);
    let input = object(vec![
        ("count", JsonValue::Number(JsonNumber::NegInt(-4))),
        ("tags", JsonValue::Array(vec![text("a"), text("b")])),
    ]);
    let value = json_to_val(&input, &ty).unwrap();
    match val_to_json(&value) {
        JsonValue::Object(members) => {
            assert_eq!(members.len(), 3);
            assert_eq!(members[0].0, "tags");
            assert!(matches!(&members[0].1, JsonValue::Array(a) if a.len() == 2));
            assert_eq!(members[1].0, "count");
            assert!(matches!(members[1].1, JsonValue::Number(JsonNumber::NegInt(-4))));
            assert_eq!(members[2].0, "note");
            assert!(matches!(members[2].1, JsonValue::Null));
        }
        other => panic!("unexpected {:?}", other),
    }
}

#[test]
fn variants_enums_flags_and_results_render() {
    let scalar = WitVal::Variant("circle".to_string(), Some(Box::new(WitVal::U32(3))));
    match val_to_json(&scalar) {
        JsonValue::Object(m) => {
            assert_eq!(m.len(), 2);
            assert_eq!(m[0].0, "type");
            assert!(matches!(&m[0].1, JsonValue::Str(s) if s == "circle"));
            assert_eq!(m[1].0, "value");
            assert!(matches!(m[1].1, JsonValue::Number(JsonNumber::PosInt(3))));
        }
        other => panic!("unexpected {:?}", other),
    }
    let record = WitVal::Variant(
        "point".to_string(),
        Some(Box::new(WitVal::Record(vec![("x".to_string(), WitVal::S32(-1))]))),
    );
    match val_to_json(&record) {
        JsonValue::Object(m) => {
            assert_eq!(m.len(), 2);
            assert_eq!(m[1].0, "x");
            assert!(matches!(m[1].1, JsonValue::Number(JsonNumber::NegInt(-1))));
        }
        other => panic!("unexpected {:?}", other),
    }
    assert!(matches!(val_to_json(&WitVal::Enum("red".to_string())), JsonValue::Str(s) if s == "red"));
    match val_to_json(&WitVal::Flags(vec!["a".to_string(), "b".to_string()])) {
        JsonValue::Array(items) => assert_eq!(items.len(), 2),
        other => panic!("unexpected {:?}", other),
    }
    match val_to_json(&WitVal::ResultOk(None)) {
        JsonValue::Object(m) => {
            assert_eq!(m[0].0, "ok");
            assert!(matches!(m[0].1, JsonValue::Null));
        }
        other => panic!("unexpected {:?}", other),
    }
    match val_to_json(&WitVal::ResultErr(Some(Box::new(WitVal::Str("bad".to_string()))))) {
        JsonValue::Object(m) => assert_eq!(m[0].0, "error"),
        other => panic!("unexpected {:?}", other),
    }
    assert!(matches!(val_to_json(&WitVal::S8(5)), JsonValue::Number(JsonNumber::PosInt(5))));
}

#[test]
fn results_take_their_shape() {
    assert!(matches!(shape_results(&vec![], &None), Ok(JsonValue::Null)));
    assert!(matches!(shape_results(&vec![WitVal::U32(42)], &None), Ok(JsonValue::Number(JsonNumber::PosInt(42)))));
    let err = vec![WitVal::ResultErr(Some(Box::new(WitVal::Str("boom".to_string()))))];
    assert!(matches!(
        shape_results(&err, &None),
        Err(InvokeError::ComponentReturnedError(JsonValue::Str(s))) if s == "boom"
    ));
    assert!(matches!(shape_results(&vec![WitVal::ResultErr(None)], &None), Err(InvokeError::ComponentReturnedBareError)));
    let two = vec![WitVal::U8(1), WitVal::Bool(true)];
    match shape_results(&two, &None) {
        Ok(JsonValue::Array(items)) => assert_eq!(items.len(), 2),
        other => panic!("unexpected {:?}", other),
    }
    let schema = object(vec![
        ("type", text("object")),
        ("properties", object(vec![("a", object(vec![])), ("b", object(vec![]))])),
    ]);
    match shape_results(&two, &Some(schema)) {
        Ok(JsonValue::Object(m)) => {
            assert_eq!(m[0].0, "a");
            assert_eq!(m[1].0, "b");
            assert!(matches!(m[1].1, JsonValue::Bool(true)));
        }
        other => panic!("unexpected {:?}", other),
    }
    let narrow = object(vec![("type", text("object")), ("properties", object(vec![("a", object(vec![]))]))]);
    assert!(matches!(
        shape_results(&two, &Some(narrow)),
        Err(InvokeError::RecordMismatch { results: 2, fields: 1 })
    ));
}

#[test]
fn argument_count_must_match() {
    assert!(check_arg_count(2, 2).is_ok());
    assert!(matches!(check_arg_count(1, 2), Err(InvokeError::WrongArgCount { expected: 2, got: 1 })));
}

#[test]
fn test_duplicate_extension_state_type_fails() {
    assert_eq!(find_duplicate_state_key(&vec![3, 5, 3]), Some(2));
    assert_eq!(find_duplicate_state_key(&vec![3, 5, 7]), None);
    assert_eq!(find_duplicate_state_key(&vec![]), None);
}
