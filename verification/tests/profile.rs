use serde_json::Value;
use sundial::json::{FloatNumber, JsonNumber, JsonValue};
use sundial::profile::{
    add_profile_item, apply_profile_item_action, profile_items, ProfileItemAction,
    ProfileItemLocation, ProfileItemSnapshot,
};

fn to_doc(value: &Value) -> JsonValue {
    match value {
        Value::Null => JsonValue::Null,
        Value::Bool(b) => JsonValue::Bool(*b),
        Value::Number(n) => {
            if let Some(u) = n.as_u64() {
                JsonValue::Number(JsonNumber::PosInt(u))
            } else if let Some(i) = n.as_i64() {
                JsonValue::Number(JsonNumber::NegInt(i))
            } else {
                let f = n.as_f64().unwrap_or(f64::NAN);
                JsonValue::Number(JsonNumber::Float(FloatNumber {
                    text: n.to_string(),
                    finite_as_f32: (f as f32).is_finite(),
                }))
            }
        }
        Value::String(s) => JsonValue::String(s.clone()),
        Value::Array(a) => JsonValue::Array(a.iter().map(to_doc).collect()),
        Value::Object(o) => JsonValue::Object(
            o.iter().map(|(k, v)| (k.clone(), to_doc(v))).collect(),
        ),
    }
}

fn from_doc(value: &JsonValue) -> Value {
    match value {
        JsonValue::Null => Value::Null,
        JsonValue::Bool(b) => Value::Bool(*b),
        JsonValue::Number(JsonNumber::PosInt(u)) => Value::from(*u),
        JsonValue::Number(JsonNumber::NegInt(i)) => Value::from(*i),
        JsonValue::Number(JsonNumber::Float(f)) => serde_json::from_str(&f.text).unwrap(),
        JsonValue::String(s) => Value::String(s.clone()),
        JsonValue::Array(a) => Value::Array(a.iter().map(from_doc).collect()),
        JsonValue::Object(o) => Value::Object(
            o.iter().map(|(k, v)| (k.clone(), from_doc(v))).collect(),
        ),
    }
}

fn document(version: u64) -> Value {
    serde_json::from_str(&format!(
        r#"{{
            "version": {version},
            "state": {{
                "account": {{
                    "primary_soid": "0x9EAA300100100100",
                    "profile_items": []
                }},
                "characters": [{{
                    "soid": "0x9EAA300200100100",
                    "class": 0,
                    "equipment": {{}},
                    "inventory": []
                }}]
            }}
        }}"#
    ))
    .unwrap()
}

fn rows(text: &str) -> Value {
    serde_json::from_str(text).unwrap()
}

#[test]
fn profile_actions_preserve_order_and_unknown_fields() {
    let mut value = document(3);
    *value.pointer_mut("/state/account/profile_items").unwrap() = rows(
        r#"[
            {"definition_hash": "0x00000001", "quantity": 2, "future": [1, 2]},
            {"definition_hash": 2, "quantity": 3}
        ]"#,
    );
    let mut document = to_doc(&value);

    apply_profile_item_action(
        &mut document,
        ProfileItemLocation { index: 0 },
        ProfileItemAction::SetQuantity(9),
    )
    .unwrap();
    let value = from_doc(&document);
    assert_eq!(
        value.pointer("/state/account/profile_items/0/future"),
        Some(&rows("[1, 2]"))
    );
    assert_eq!(
        value.pointer("/state/account/profile_items/1/definition_hash"),
        Some(&Value::from(2))
    );

    let added = add_profile_item(&mut document, 3, 4).unwrap();
    assert_eq!(added.index, 2);
    let value = from_doc(&document);
    assert_eq!(
        value.pointer("/state/account/profile_items/2"),
        Some(&rows(r#"{"definition_hash": "0x00000003", "quantity": 4}"#))
    );

    apply_profile_item_action(
        &mut document,
        ProfileItemLocation { index: 1 },
        ProfileItemAction::Remove,
    )
    .unwrap();
    let value = from_doc(&document);
    assert_eq!(
        value.pointer("/state/account/profile_items/1/definition_hash"),
        Some(&Value::String("0x00000003".into()))
    );
}

#[test]
fn malformed_profile_sections_are_rejected_without_mutation() {
    let mut value = document(6);
    *value.pointer_mut("/state/account/profile_items").unwrap() = Value::String("bad".into());
    let mut document = to_doc(&value);
    let error = add_profile_item(&mut document, 1, 1).unwrap_err();
    assert_eq!(error.path(), "/state/account/profile_items");
    assert!(error.message().contains("array"));
    assert_eq!(from_doc(&document), value);
}

#[test]
fn profile_capacity_follows_schema_history() {
    let mut legacy = document(3);
    *legacy.pointer_mut("/state/account/profile_items").unwrap() = Value::Array(
        (0..32)
            .map(|index| json_row(index))
            .collect(),
    );
    let before = legacy.clone();
    let mut legacy_document = to_doc(&legacy);
    assert!(add_profile_item(&mut legacy_document, 99, 1).is_err());
    assert_eq!(from_doc(&legacy_document), before);

    let mut newer = document(4);
    *newer.pointer_mut("/state/account/profile_items").unwrap() = Value::Array(
        (0..32)
            .map(|index| json_row(index))
            .collect(),
    );
    let mut newer_document = to_doc(&newer);
    assert!(add_profile_item(&mut newer_document, 99, 1).is_ok());
}

fn json_row(index: u64) -> Value {
    let mut row = serde_json::Map::new();
    row.insert("definition_hash".into(), Value::from(index));
    row.insert("quantity".into(), Value::from(1));
    Value::Object(row)
}

#[test]
fn reading_profile_items_reports_rows_and_errors() {
    let mut value = document(6);
    *value.pointer_mut("/state/account/profile_items").unwrap() =
        rows(r#"[{"definition_hash": "0x0000000A", "quantity": 5}]"#);
    let document = to_doc(&value);
    assert_eq!(
        profile_items(&document).unwrap(),
        Some(vec![ProfileItemSnapshot {
            location: ProfileItemLocation { index: 0 },
            definition_hash: 10,
            quantity: 5,
        }])
    );
    assert_eq!(profile_items(&to_doc(&rows(r#"{"version": 6}"#))).unwrap(), None);
    let error = profile_items(&to_doc(&rows(r#"{"state": {}}"#))).unwrap_err();
    assert_eq!(error.path(), "/version");
    let mut bad = document_value_with_rows(r#"[{"definition_hash": 1, "quantity": 0}]"#);
    let error = profile_items(&to_doc(&bad)).unwrap_err();
    assert_eq!(error.path(), "/state/account/profile_items/0/quantity");
    *bad.pointer_mut("/state/account/profile_items").unwrap() = rows(r#"[{"quantity": 1}]"#);
    let error = profile_items(&to_doc(&bad)).unwrap_err();
    assert_eq!(error.message(), "item is missing definition_hash");
}

fn document_value_with_rows(text: &str) -> Value {
    let mut value = document(6);
    *value.pointer_mut("/state/account/profile_items").unwrap() = rows(text);
    value
}

#[test]
fn refused_profile_edits_change_nothing() {
    let value = document_value_with_rows(r#"[{"definition_hash": 1, "quantity": 1}]"#);
    let mut doc = to_doc(&value);
    assert!(add_profile_item(&mut doc, 0x811C_9DC5, 1).is_err());
    assert!(add_profile_item(&mut doc, 1, 0).is_err());
    let error = apply_profile_item_action(
        &mut doc,
        ProfileItemLocation { index: 3 },
        ProfileItemAction::Remove,
    )
    .unwrap_err();
    assert_eq!(error.path(), "/state/account/profile_items/3");
    let error = apply_profile_item_action(
        &mut doc,
        ProfileItemLocation { index: 0 },
        ProfileItemAction::SetDefinitionHash(0x811C_9DC5),
    )
    .unwrap_err();
    assert_eq!(error.path(), "/state/account/profile_items/0/definition_hash");
    assert_eq!(from_doc(&doc), value);

    let mut future = to_doc(&document(7));
    let error = add_profile_item(&mut future, 1, 1).unwrap_err();
    assert_eq!(
        error.message(),
        "settings schema 7 is newer than supported schema 6; profile items is read-only"
    );
    assert_eq!(from_doc(&future), document(7));
}

#[test]
fn adding_creates_the_rows_when_the_account_has_none() {
    let value: Value = serde_json::from_str(r#"{"version": 6, "state": {"account": {"primary_soid": 1}}}"#).unwrap();
    let mut document = to_doc(&value);
    let location = add_profile_item(&mut document, 5, 2).unwrap();
    assert_eq!(location.index, 0);
    assert_eq!(
        from_doc(&document),
        serde_json::from_str::<Value>(r#"{"version": 6, "state": {"account": {"primary_soid": 1, "profile_items": [{"definition_hash": "0x00000005", "quantity": 2}]}}}"#).unwrap()
    );
}

#[test]
fn edited_and_removed_rows_read_back() {
    let value = document_value_with_rows(
        r#"[
            {"definition_hash": 1, "quantity": 2},
            {"definition_hash": 2, "quantity": 3},
            {"definition_hash": 3, "quantity": 4}
        ]"#,
    );
    let mut document = to_doc(&value);
    let before = profile_items(&document).unwrap().unwrap();

    apply_profile_item_action(
        &mut document,
        ProfileItemLocation { index: 1 },
        ProfileItemAction::SetDefinitionHash(0x77),
    )
    .unwrap();
    let mut expected = before.clone();
    expected[1].definition_hash = 0x77;
    assert_eq!(profile_items(&document).unwrap().unwrap(), expected);

    apply_profile_item_action(
        &mut document,
        ProfileItemLocation { index: 0 },
        ProfileItemAction::Remove,
    )
    .unwrap();
    let after = profile_items(&document).unwrap().unwrap();
    assert_eq!(after.len(), 2);
    assert_eq!(after[0].location.index, 0);
    assert_eq!(after[0].definition_hash, 0x77);
    assert_eq!(after[1].location.index, 1);
    assert_eq!(after[1].quantity, 4);
}
