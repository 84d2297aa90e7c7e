use serde_json::Value;
use sundial::character_inventory::{
    add_inventory_item, apply_inventory_actions_atomic, apply_inventory_item_action,
    character_inventory, move_equipment_item_to_inventory, swap_inventory_item_with_equipment,
};
use sundial::inventory::{
    format_definition_hash, format_instance_soid, InventoryItemAction, InventoryItemLocation,
    ItemPlugs, NewInventoryItem, CHARACTER_INVENTORY_CAPACITY, GENERATED_INSTANCE_SOID_START,
    MAX_ITEM_PLUGS, NO_DEFINITION_HASH,
};
use sundial::json::{FloatNumber, JsonNumber, JsonValue};
use sundial::equipment_edit::add_picked_inventory_item;
use sundial::profile::{
    add_picked_profile_item,
    add_profile_item, apply_profile_item_action, profile_items, ProfileItemAction,
    ProfileItemLocation,
};
use sundial::soids::{allocate_instance_soid, collect_used_soids, next_available_instance_soid};
use sundial::validation::{validate_document_items, DISMANTLE_REWARD_CAPACITY};

fn to_doc(value: &Value) -> JsonValue {
    match value {
        Value::Null => JsonValue::Null,
        Value::Bool(b) => JsonValue::Bool(*b),
        Value::Number(n) => {
            if let Some(u) = n.as_u64() {
                JsonValue::Number(JsonNumber::PosInt(u))
            } else if let Some(i) = n.as_i64() {
                JsonValue::Number(JsonNumber::NegInt(i))
            } else {
                let f = n.as_f64().unwrap_or(f64::NAN);
                JsonValue::Number(JsonNumber::Float(FloatNumber {
                    text: n.to_string(),
                    finite_as_f32: (f as f32).is_finite(),
                }))
            }
        }
        Value::String(s) => JsonValue::String(s.clone()),
        Value::Array(a) => JsonValue::Array(a.iter().map(to_doc).collect()),
        Value::Object(o) => JsonValue::Object(
            o.iter().map(|(k, v)| (k.clone(), to_doc(v))).collect(),
        ),
    }
}

fn from_doc(value: &JsonValue) -> Value {
    match value {
        JsonValue::Null => Value::Null,
        JsonValue::Bool(b) => Value::Bool(*b),
        JsonValue::Number(JsonNumber::PosInt(u)) => Value::from(*u),
        JsonValue::Number(JsonNumber::NegInt(i)) => Value::from(*i),
        JsonValue::Number(JsonNumber::Float(f)) => serde_json::from_str(&f.text).unwrap(),
        JsonValue::String(s) => Value::String(s.clone()),
        JsonValue::Array(a) => Value::Array(a.iter().map(from_doc).collect()),
        JsonValue::Object(o) => Value::Object(
            o.iter().map(|(k, v)| (k.clone(), from_doc(v))).collect(),
        ),
    }
}

fn v(text: &str) -> Value {
    serde_json::from_str(text).unwrap()
}

fn item(soid: u64, hash: u32) -> Value {
    v(&format!(
        r#"{{"instance_soid": "{}", "definition_hash": "{}", "level": 106, "quantity": 1, "plugs": null}}"#,
        format_instance_soid(soid),
        format_definition_hash(hash)
    ))
}

fn document(version: u64) -> Value {
    v(&format!(
        r#"{{
            "version": {version},
            "state": {{
                "account": {{
                    "primary_soid": "0x9EAA300100100100",
                    "profile_items": []
                }},
                "characters": [{{
                    "soid": "0x9EAA300200100100",
                    "class": 0,
                    "equipment": {{}},
                    "inventory": []
                }}]
            }}
        }}"#
    ))
}

fn first_row() -> InventoryItemLocation {
    InventoryItemLocation {
        character_index: 0,
        item_index: 0,
    }
}

#[test]
fn reading_missing_sections_never_materializes_them() {
    let value = v(r#"{"version": 6, "state": {"account": {}, "characters": [{"soid": 1}]}}"#);
    let document = to_doc(&value);
    assert!(profile_items(&document).unwrap().is_none());
    assert!(character_inventory(&document, 0).unwrap().is_none());
    assert_eq!(from_doc(&document), value);
}

#[test]
fn profile_hashes_reject_the_engine_sentinel_without_mutation() {
    let mut parsed = document(6);
    *parsed.pointer_mut("/state/account/profile_items").unwrap() = v(&format!(
        r#"[{{"definition_hash": "{}", "quantity": 1}}]"#,
        format_definition_hash(NO_DEFINITION_HASH)
    ));
    let error = validate_document_items(&to_doc(&parsed)).unwrap_err();
    assert_eq!(error.path(), "/state/account/profile_items/0/definition_hash");

    let mut added = to_doc(&document(6));
    let before = from_doc(&added);
    assert!(add_profile_item(&mut added, NO_DEFINITION_HASH, 1).is_err());
    assert_eq!(from_doc(&added), before);

    add_profile_item(&mut added, 1, 1).unwrap();
    let before = from_doc(&added);
    assert!(apply_profile_item_action(
        &mut added,
        ProfileItemLocation { index: 0 },
        ProfileItemAction::SetDefinitionHash(NO_DEFINITION_HASH),
    )
    .is_err());
    assert_eq!(from_doc(&added), before);
}

#[test]
fn old_and_future_schemas_are_read_only_where_required() {
    let mut unsupported = to_doc(&document(1));
    let before = from_doc(&unsupported);
    assert!(add_profile_item(&mut unsupported, 1, 1).is_err());
    assert!(validate_document_items(&unsupported).is_err());
    assert_eq!(from_doc(&unsupported), before);

    let mut old_value = document(5);
    *old_value.pointer_mut("/state/characters/0/inventory").unwrap() =
        Value::Array(vec![item(GENERATED_INSTANCE_SOID_START, 1)]);
    let mut old = to_doc(&old_value);
    assert_eq!(character_inventory(&old, 0).unwrap().unwrap().len(), 1);
    assert!(apply_inventory_item_action(&mut old, first_row(), InventoryItemAction::SetQuantity(2)).is_err());
    assert_eq!(from_doc(&old), old_value);

    let mut future = to_doc(&document(7));
    assert!(add_profile_item(&mut future, 1, 1).is_err());
    assert_eq!(from_doc(&future), document(7));
}

#[test]
fn explicit_v6_add_materializes_only_the_inventory_leaf() {
    let mut value = document(6);
    let character = value
        .pointer_mut("/state/characters/0")
        .unwrap()
        .as_object_mut()
        .unwrap();
    character.remove("inventory");
    character.insert("future_character_data".into(), v(r#"{"keep": true}"#));
    let mut doc = to_doc(&value);

    let location = add_inventory_item(&mut doc, 0, NewInventoryItem::single(42, 106)).unwrap();
    assert_eq!(location, first_row());
    let after = from_doc(&doc);
    let created = after.pointer("/state/characters/0/inventory/0").unwrap();
    assert_eq!(created.get("plugs"), Some(&Value::Null));
    assert!(created.get("flags").is_none());
    assert_eq!(created.get("quantity"), Some(&Value::from(1)));
    assert_eq!(
        after.pointer("/state/characters/0/future_character_data/keep"),
        Some(&Value::Bool(true))
    );
}

#[test]
fn inventory_actions_preserve_identity_order_and_unknown_fields() {
    let mut value = document(6);
    *value.pointer_mut("/state/characters/0/inventory").unwrap() = v(r#"[
        {
            "instance_soid": "0x4000000000000001",
            "definition_hash": "0x00000001",
            "level": 106,
            "quantity": 1,
            "plugs": null,
            "flags": 1,
            "future": {"keep": true}
        },
        {
            "instance_soid": "0x4000000000000002",
            "definition_hash": "0x00000002",
            "level": 106,
            "quantity": 1,
            "plugs": []
        }
    ]"#);
    let mut doc = to_doc(&value);
    apply_inventory_item_action(&mut doc, first_row(), InventoryItemAction::SetDefinitionHash(3)).unwrap();
    apply_inventory_item_action(
        &mut doc,
        first_row(),
        InventoryItemAction::SetPlugs(ItemPlugs::Authored(vec![Some(4), None])),
    )
    .unwrap();
    apply_inventory_item_action(&mut doc, first_row(), InventoryItemAction::SetFlags(None)).unwrap();
    let after = from_doc(&doc);
    let edited = after.pointer("/state/characters/0/inventory/0").unwrap();
    assert_eq!(
        edited.get("instance_soid"),
        Some(&Value::String("0x4000000000000001".into()))
    );
    assert_eq!(edited.pointer("/future/keep"), Some(&Value::Bool(true)));
    assert_eq!(edited.get("plugs"), Some(&v(r#"["0x00000004", null]"#)));
    assert!(edited.get("flags").is_none());
    assert_eq!(
        after.pointer("/state/characters/0/inventory/1/instance_soid"),
        Some(&Value::String("0x4000000000000002".into()))
    );
}

#[test]
fn equipping_a_stored_item_swaps_the_complete_authored_rows() {
    let mut value = document(6);
    let mut equipped = item(1, 10);
    equipped["equipped_only"] = v(r#"{"preserved": true}"#);
    let mut stored = item(2, 20);
    stored["stored_only"] = v("[1, 2, 3]");
    let untouched = item(3, 30);
    let mut equipment = serde_json::Map::new();
    equipment.insert("kinetic".into(), equipped.clone());
    *value.pointer_mut("/state/characters/0/equipment").unwrap() = Value::Object(equipment);
    *value.pointer_mut("/state/characters/0/inventory").unwrap() =
        Value::Array(vec![stored.clone(), untouched.clone()]);
    let mut doc = to_doc(&value);

    let replaced = swap_inventory_item_with_equipment(&mut doc, first_row(), "kinetic").unwrap();

    assert!(replaced);
    let after = from_doc(&doc);
    assert_eq!(after.pointer("/state/characters/0/equipment/kinetic"), Some(&stored));
    assert_eq!(after.pointer("/state/characters/0/inventory/0"), Some(&equipped));
    assert_eq!(after.pointer("/state/characters/0/inventory/1"), Some(&untouched));
}

#[test]
fn equipping_into_an_empty_slot_removes_only_the_moved_inventory_row() {
    let mut value = document(6);
    let stored = item(1, 10);
    let untouched = item(2, 20);
    *value.pointer_mut("/state/characters/0/equipment").unwrap() = v(r#"{"energy": null}"#);
    *value.pointer_mut("/state/characters/0/inventory").unwrap() =
        Value::Array(vec![stored.clone(), untouched.clone()]);
    let mut doc = to_doc(&value);

    let replaced = swap_inventory_item_with_equipment(&mut doc, first_row(), "energy").unwrap();

    assert!(!replaced);
    let after = from_doc(&doc);
    assert_eq!(after.pointer("/state/characters/0/equipment/energy"), Some(&stored));
    assert_eq!(
        after.pointer("/state/characters/0/inventory"),
        Some(&Value::Array(vec![untouched]))
    );
}

#[test]
fn failed_inventory_equipment_swaps_are_atomic() {
    let mut value = document(6);
    *value.pointer_mut("/state/characters/0/equipment").unwrap() = v(r#"{
        "kinetic": {
            "instance_soid": "0x4000000000000001",
            "definition_hash": "0x0000000A",
            "level": 106,
            "quantity": 1
        }
    }"#);
    *value.pointer_mut("/state/characters/0/inventory").unwrap() = Value::Array(vec![item(2, 20)]);
    let mut doc = to_doc(&value);

    assert!(swap_inventory_item_with_equipment(&mut doc, first_row(), "kinetic").is_err());
    assert_eq!(from_doc(&doc), value);
}

#[test]
fn unequipping_moves_the_complete_authored_row_to_inventory() {
    let mut value = document(6);
    let mut equipped = item(1, 10);
    equipped["equipped_only"] = v(r#"{"preserved": true}"#);
    let untouched = item(2, 20);
    let mut equipment = serde_json::Map::new();
    equipment.insert("kinetic".into(), equipped.clone());
    *value.pointer_mut("/state/characters/0/equipment").unwrap() = Value::Object(equipment);
    *value.pointer_mut("/state/characters/0/inventory").unwrap() = Value::Array(vec![untouched.clone()]);
    let mut doc = to_doc(&value);

    move_equipment_item_to_inventory(&mut doc, 0, "kinetic").unwrap();

    let after = from_doc(&doc);
    assert_eq!(after.pointer("/state/characters/0/equipment/kinetic"), Some(&Value::Null));
    assert_eq!(
        after.pointer("/state/characters/0/inventory"),
        Some(&Value::Array(vec![untouched, equipped]))
    );
}

#[test]
fn unequipping_creates_a_missing_inventory_array() {
    let mut value = document(6);
    let equipped = item(1, 10);
    value
        .pointer_mut("/state/characters/0")
        .and_then(Value::as_object_mut)
        .unwrap()
        .remove("inventory");
    let mut equipment = serde_json::Map::new();
    equipment.insert("energy".into(), equipped.clone());
    *value.pointer_mut("/state/characters/0/equipment").unwrap() = Value::Object(equipment);
    let mut doc = to_doc(&value);

    move_equipment_item_to_inventory(&mut doc, 0, "energy").unwrap();

    let after = from_doc(&doc);
    assert_eq!(
        after.pointer("/state/characters/0/inventory"),
        Some(&Value::Array(vec![equipped]))
    );
    assert_eq!(after.pointer("/state/characters/0/equipment/energy"), Some(&Value::Null));
}

#[test]
fn failed_unequips_are_atomic() {
    let mut value = document(6);
    let mut equipment = serde_json::Map::new();
    equipment.insert("heavy".into(), item(1, 10));
    *value.pointer_mut("/state/characters/0/equipment").unwrap() = Value::Object(equipment);
    *value.pointer_mut("/state/characters/0/inventory").unwrap() = Value::Array(
        (0..CHARACTER_INVENTORY_CAPACITY)
            .map(|index| item(index as u64 + 2, 20))
            .collect(),
    );
    let mut doc = to_doc(&value);

    let error = move_equipment_item_to_inventory(&mut doc, 0, "heavy").unwrap_err();

    assert!(
        error.message().contains("inventory is full"),
        "unexpected error: {}",
        error.to_text()
    );
    assert_eq!(from_doc(&doc), value);
}

#[test]
fn strict_v6_validation_reports_unknown_item_members_without_deleting_them() {
    let mut value = document(6);
    let mut row = item(1, 1);
    row["future"] = v(r#"{"keep": true}"#);
    *value.pointer_mut("/state/characters/0/inventory").unwrap() = Value::Array(vec![row]);
    let mut doc = to_doc(&value);

    let error = validate_document_items(&doc).unwrap_err();
    assert_eq!(error.path(), "/state/characters/0/inventory/0/future");
    apply_inventory_item_action(&mut doc, first_row(), InventoryItemAction::SetQuantity(2)).unwrap();
    assert_eq!(
        from_doc(&doc).pointer("/state/characters/0/inventory/0/future/keep"),
        Some(&Value::Bool(true))
    );

    let mut profile = document(6);
    *profile.pointer_mut("/state/account/profile_items").unwrap() =
        v(r#"[{"definition_hash": 1, "quantity": 1, "future": true}]"#);
    assert!(validate_document_items(&to_doc(&profile)).is_ok());
}

#[test]
fn inventory_validation_covers_required_bounds() {
    let invalid_values = [
        ("instance_soid", Value::from(0)),
        ("definition_hash", Value::from(u64::from(u32::MAX) + 1)),
        ("level", Value::from(-1)),
        ("quantity", Value::from(0)),
        ("flags", Value::from(8)),
    ];
    for (key, bad) in invalid_values {
        let mut value = document(6);
        let mut row = item(1, 1);
        row.as_object_mut().unwrap().insert(key.into(), bad);
        *value.pointer_mut("/state/characters/0/inventory").unwrap() = Value::Array(vec![row]);
        let error = validate_document_items(&to_doc(&value)).unwrap_err();
        assert!(error.path().ends_with(key), "unexpected error: {}", error.to_text());
    }

    let mut too_many_plugs = document(6);
    let mut row = item(1, 1);
    row["plugs"] = Value::Array(vec![Value::Null; MAX_ITEM_PLUGS + 1]);
    *too_many_plugs.pointer_mut("/state/characters/0/inventory").unwrap() = Value::Array(vec![row]);
    assert!(validate_document_items(&to_doc(&too_many_plugs)).is_err());

    let mut too_many_items = document(6);
    *too_many_items.pointer_mut("/state/characters/0/inventory").unwrap() = Value::Array(
        (0..=CHARACTER_INVENTORY_CAPACITY)
            .map(|index| item(index as u64 + 1, 1))
            .collect(),
    );
    assert!(validate_document_items(&to_doc(&too_many_items)).is_err());

    let mut quoted_flags = document(6);
    let mut row = item(1, 1);
    row["flags"] = Value::String("0x3".into());
    *quoted_flags.pointer_mut("/state/characters/0/inventory").unwrap() = Value::Array(vec![row]);
    assert_eq!(
        character_inventory(&to_doc(&quoted_flags), 0).unwrap().unwrap()[0].flags,
        Some(3)
    );
}

#[test]
fn document_validation_requires_the_account_primary_soid() {
    let mut value = document(6);
    value
        .pointer_mut("/state/account")
        .unwrap()
        .as_object_mut()
        .unwrap()
        .remove("primary_soid");
    let error = validate_document_items(&to_doc(&value)).unwrap_err();
    assert_eq!(error.path(), "/state/account/primary_soid");
}

#[test]
fn schema_five_and_newer_dismantle_rewards_follow_sunrise_constraints() {
    for version in 5..=6 {
        let mut valid = document(version);
        valid
            .pointer_mut("/state/account")
            .unwrap()
            .as_object_mut()
            .unwrap()
            .insert(
                "dismantle_rewards".into(),
                v(&format!(
                    r#"[
                        {{"definition_hash": "0x00000001", "quantity": 1, "future": {{"preserved": true}}}},
                        {{"definition_hash": 2, "quantity": {}}}
                    ]"#,
                    i32::MAX
                )),
            );
        let doc = to_doc(&valid);
        assert!(validate_document_items(&doc).is_ok());
        assert_eq!(
            from_doc(&doc).pointer("/state/account/dismantle_rewards/0/future/preserved"),
            Some(&Value::Bool(true))
        );
    }

    let invalid = [
        (v(r#""not an array""#), "/state/account/dismantle_rewards"),
        (v(r#"["not an object"]"#), "/dismantle_rewards/0"),
        (v(r#"[{"quantity": 1}]"#), "/dismantle_rewards/0/definition_hash"),
        (v(r#"[{"definition_hash": 1}]"#), "/dismantle_rewards/0/quantity"),
        (
            v(r#"[{"definition_hash": 0, "quantity": 1}]"#),
            "/dismantle_rewards/0/definition_hash",
        ),
        (
            v(&format!(
                r#"[{{"definition_hash": "{}", "quantity": 1}}]"#,
                format_definition_hash(NO_DEFINITION_HASH)
            )),
            "/dismantle_rewards/0/definition_hash",
        ),
        (
            v(&format!(
                r#"[{{"definition_hash": {}, "quantity": 1}}]"#,
                u64::from(u32::MAX) + 1
            )),
            "/dismantle_rewards/0/definition_hash",
        ),
        (
            v(r#"[{"definition_hash": 1, "quantity": 0}]"#),
            "/dismantle_rewards/0/quantity",
        ),
        (
            v(r#"[{"definition_hash": 1, "quantity": "0x1"}]"#),
            "/dismantle_rewards/0/quantity",
        ),
        (
            v(&format!(
                r#"[{{"definition_hash": 1, "quantity": {}}}]"#,
                i64::from(i32::MAX) + 1
            )),
            "/dismantle_rewards/0/quantity",
        ),
        (
            v(r#"[{"definition_hash": 1, "quantity": 1}, {"definition_hash": 1, "quantity": 2}]"#),
            "/dismantle_rewards/1/definition_hash",
        ),
        (
            Value::Array(
                (1..=DISMANTLE_REWARD_CAPACITY + 1)
                    .map(|hash| v(&format!(r#"{{"definition_hash": {hash}, "quantity": 1}}"#)))
                    .collect(),
            ),
            "/state/account/dismantle_rewards",
        ),
    ];
    for version in 5..=6 {
        for (rewards, expected_path_suffix) in &invalid {
            let mut candidate = document(version);
            candidate
                .pointer_mut("/state/account")
                .unwrap()
                .as_object_mut()
                .unwrap()
                .insert("dismantle_rewards".into(), rewards.clone());
            let doc = to_doc(&candidate);
            let error = validate_document_items(&doc).unwrap_err();
            assert!(
                error.path().ends_with(expected_path_suffix),
                "unexpected error for schema {version}: {}",
                error.to_text()
            );
            assert_eq!(from_doc(&doc), candidate);
        }
    }

    let mut legacy = document(4);
    legacy
        .pointer_mut("/state/account")
        .unwrap()
        .as_object_mut()
        .unwrap()
        .insert("dismantle_rewards".into(), v(r#"{"future": true}"#));
    assert!(validate_document_items(&to_doc(&legacy)).is_ok());
}

#[test]
fn document_validation_rejects_duplicate_soids_with_both_locations() {
    let duplicate = 0x4000_0000_0000_1234;
    let mut equipment_inventory = document(6);
    let mut equipment = serde_json::Map::new();
    equipment.insert("kinetic".into(), item(duplicate, 1));
    *equipment_inventory.pointer_mut("/state/characters/0/equipment").unwrap() = Value::Object(equipment);
    *equipment_inventory.pointer_mut("/state/characters/0/inventory").unwrap() =
        Value::Array(vec![item(duplicate, 2)]);

    let error = validate_document_items(&to_doc(&equipment_inventory)).unwrap_err();
    assert_eq!(error.path(), "/state/characters/0/inventory/0/instance_soid");
    assert!(error
        .message()
        .contains("/state/characters/0/equipment/kinetic/instance_soid"));

    let mut account_character = document(6);
    let account_soid = account_character
        .pointer("/state/account/primary_soid")
        .unwrap()
        .clone();
    *account_character.pointer_mut("/state/characters/0/soid").unwrap() = account_soid;

    let error = validate_document_items(&to_doc(&account_character)).unwrap_err();
    assert_eq!(error.path(), "/state/characters/0/soid");
    assert!(error.message().contains("/state/account/primary_soid"));
}

#[test]
fn soid_allocation_scans_account_characters_equipment_and_inventory() {
    let start = GENERATED_INSTANCE_SOID_START;
    let value = v(&format!(
        r#"{{
            "version": 6,
            "state": {{
                "account": {{"primary_soid": "{}"}},
                "characters": [
                    {{
                        "soid": "{}",
                        "equipment": {{"kinetic": {}}},
                        "inventory": [{}]
                    }},
                    {{
                        "soid": "0x9EAA300200100101",
                        "equipment": {{}},
                        "inventory": []
                    }}
                ]
            }}
        }}"#,
        format_instance_soid(start),
        format_instance_soid(start + 1),
        item(start + 2, 1),
        item(start + 3, 2)
    ));
    let mut doc = to_doc(&value);
    assert_eq!(allocate_instance_soid(&doc).unwrap(), start + 4);

    let location = add_inventory_item(
        &mut doc,
        1,
        NewInventoryItem {
            definition_hash: 3,
            level: 106,
            quantity: 2,
        },
    )
    .unwrap();
    assert_eq!(location.item_index, 0);
    assert_eq!(
        from_doc(&doc).pointer("/state/characters/1/inventory/0/instance_soid"),
        Some(&Value::String(format_instance_soid(start + 4)))
    );
}

#[test]
fn allocation_errors_on_malformed_identity_sources_and_exhaustion() {
    let malformed = to_doc(&v(
        r#"{"state": {"characters": [{"equipment": {"kinetic": {"instance_soid": 0}}}]}}"#,
    ));
    let error = collect_used_soids(&malformed).unwrap_err();
    assert!(error.path().ends_with("instance_soid"));

    let exhausted = to_doc(&v(&format!(
        r#"{{"state": {{"account": {{"primary_soid": {}}}}}}}"#,
        u64::MAX
    )));
    assert!(next_available_instance_soid(&exhausted, u64::MAX).is_err());
}

#[test]
fn failed_actions_leave_documents_untouched() {
    let mut value = document(6);
    *value.pointer_mut("/state/characters/0/inventory").unwrap() = Value::Array(vec![item(1, 1)]);
    let mut doc = to_doc(&value);
    assert!(apply_inventory_item_action(&mut doc, first_row(), InventoryItemAction::SetQuantity(0)).is_err());
    assert_eq!(from_doc(&doc), value);

    assert!(apply_inventory_item_action(
        &mut doc,
        first_row(),
        InventoryItemAction::SetPlugs(ItemPlugs::Authored(vec![None; MAX_ITEM_PLUGS + 1]))
    )
    .is_err());
    assert_eq!(from_doc(&doc), value);
}

#[test]
fn multi_field_inventory_edits_are_atomic() {
    let value = v(r#"{
        "version": 6,
        "state": {
            "account": {},
            "characters": [{
                "soid": 1,
                "equipment": {},
                "inventory": [{
                    "instance_soid": "0x4000000000000001",
                    "definition_hash": "0x0000002A",
                    "level": 106,
                    "quantity": 1,
                    "plugs": null
                }]
            }]
        }
    }"#);
    let mut doc = to_doc(&value);
    let error = apply_inventory_actions_atomic(
        &mut doc,
        first_row(),
        vec![
            InventoryItemAction::SetQuantity(2),
            InventoryItemAction::SetFlags(Some(8)),
        ],
    )
    .unwrap_err();

    assert!(error.contains("flags"));
    assert_eq!(from_doc(&doc), value);
}

#[test]
fn allocated_soids_are_never_already_used() {
    let start = GENERATED_INSTANCE_SOID_START;
    let value = v(&format!(
        r#"{{
            "version": 6,
            "state": {{
                "account": {{"primary_soid": "{}"}},
                "characters": [
                    {{
                        "soid": "{}",
                        "equipment": {{"kinetic": {}}},
                        "inventory": [{}]
                    }}
                ]
            }}
        }}"#,
        format_instance_soid(start + 1),
        format_instance_soid(start),
        item(start + 3, 1),
        item(start + 2, 2)
    ));
    let doc = to_doc(&value);
    let allocated = allocate_instance_soid(&doc).unwrap();
    let used = collect_used_soids(&doc).unwrap();
    assert_eq!(allocated, start + 4);
    assert!(!used.contains(&allocated));
    assert_eq!(used.len(), 4);
}

#[test]
fn picked_definitions_are_added_or_refused_whole() {
    let mut doc = to_doc(&document(6));
    let before = from_doc(&doc);
    assert_eq!(
        add_picked_inventory_item(&mut doc, 0, 1 << 32, 0),
        Err("The selected inventory hash does not fit in 32 bits".to_owned())
    );
    assert_eq!(
        add_picked_profile_item(&mut doc, 1 << 32),
        Err("The selected profile-item hash does not fit in 32 bits".to_owned())
    );
    assert_eq!(from_doc(&doc), before);

    let location = add_picked_inventory_item(&mut doc, 0, 0x1234, 2).unwrap();
    assert_eq!(location, first_row());
    let added = from_doc(&doc);
    assert_eq!(added["state"]["characters"][0]["inventory"][0]["level"], 106);
    assert_eq!(added["state"]["characters"][0]["inventory"][0]["quantity"], 1);
    let location = add_picked_inventory_item(&mut doc, 0, 0x1235, 12).unwrap();
    assert_eq!(location.item_index, 1);
    assert_eq!(from_doc(&doc)["state"]["characters"][0]["inventory"][1]["level"], 0);

    let profile = add_picked_profile_item(&mut doc, 0x77).unwrap();
    assert_eq!(profile.index, 0);
    assert_eq!(from_doc(&doc)["state"]["account"]["profile_items"][0]["quantity"], 1);

    let error = add_picked_inventory_item(&mut doc, 3, 0x1236, 0).unwrap_err();
    assert!(!error.is_empty());
}

#[test]
fn edited_and_removed_inventory_rows_read_back() {
    let start = GENERATED_INSTANCE_SOID_START;
    let mut value = document(6);
    *value.pointer_mut("/state/characters/0/inventory").unwrap() =
        Value::Array(vec![item(start, 1), item(start + 1, 2), item(start + 2, 3)]);
    let mut doc = to_doc(&value);
    let before = character_inventory(&doc, 0).unwrap().unwrap();

    let second = InventoryItemLocation {
        character_index: 0,
        item_index: 1,
    };
    apply_inventory_item_action(&mut doc, second, InventoryItemAction::SetLevel(7)).unwrap();
    apply_inventory_item_action(
        &mut doc,
        second,
        InventoryItemAction::SetPlugs(ItemPlugs::Authored(vec![Some(5), None])),
    )
    .unwrap();
    apply_inventory_item_action(&mut doc, second, InventoryItemAction::SetFlags(Some(1))).unwrap();
    let mut expected = before.clone();
    expected[1].level = 7;
    expected[1].plugs = ItemPlugs::Authored(vec![Some(5), None]);
    expected[1].flags = Some(1);
    assert_eq!(character_inventory(&doc, 0).unwrap().unwrap(), expected);

    apply_inventory_item_action(&mut doc, first_row(), InventoryItemAction::Remove).unwrap();
    let after = character_inventory(&doc, 0).unwrap().unwrap();
    assert_eq!(after.len(), 2);
    assert_eq!(after[0].location.item_index, 0);
    assert_eq!(after[0].instance_soid, start + 1);
    assert_eq!(after[0].level, 7);
    assert_eq!(after[1].location.item_index, 1);
    assert_eq!(after[1].instance_soid, start + 2);
}
