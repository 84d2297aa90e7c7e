use serde_json::Value;
use sundial::characters::validate_characters;
use sundial::equipment::{AbilityChoice, AbilityOptions};
use sundial::equipment_edit::{
    character_id_for_export, collect_class_armor_defaults, default_inventory_item_level,
    displayed_plugs,
    equip_inventory_item, equip_subclass_with_default_abilities, inferred_item_level,
    native_plug_default, restore_class_armor, set_equipment_item_catalyst,
    set_equipment_item_flags, set_equipment_item_level, set_weapon_slot_empty, CatalystSocket,
    CatalystState, ItemDefinition,
};
use sundial::equipped::{equipped_item_snapshots, EquippedItemPlugs, EquippedPlugValue};
use sundial::inventory::{
    format_hash, set_inventory_locked_flag, InventoryItemLocation,
    EQUIPMENT_FLAGS_SCHEMA_VERSION, INVENTORY_FLAG_MASTERWORK,
};
use sundial::item_editor::NativePlugDefault;
use sundial::json::{FloatNumber, JsonNumber, JsonValue};

fn to_doc(value: &Value) -> JsonValue {
    match value {
        Value::Null => JsonValue::Null,
        Value::Bool(b) => JsonValue::Bool(*b),
        Value::Number(n) => {
            if let Some(u) = n.as_u64() {
                JsonValue::Number(JsonNumber::PosInt(u))
            } else if let Some(i) = n.as_i64() {
                JsonValue::Number(JsonNumber::NegInt(i))
            } else {
                let f = n.as_f64().unwrap_or(f64::NAN);
                JsonValue::Number(JsonNumber::Float(FloatNumber {
                    text: n.to_string(),
                    finite_as_f32: (f as f32).is_finite(),
                }))
            }
        }
        Value::String(s) => JsonValue::String(s.clone()),
        Value::Array(a) => JsonValue::Array(a.iter().map(to_doc).collect()),
        Value::Object(o) => JsonValue::Object(
            o.iter().map(|(k, v)| (k.clone(), to_doc(v))).collect(),
        ),
    }
}

fn from_doc(value: &JsonValue) -> Value {
    match value {
        JsonValue::Null => Value::Null,
        JsonValue::Bool(b) => Value::Bool(*b),
        JsonValue::Number(JsonNumber::PosInt(u)) => Value::from(*u),
        JsonValue::Number(JsonNumber::NegInt(i)) => Value::from(*i),
        JsonValue::Number(JsonNumber::Float(f)) => serde_json::from_str(&f.text).unwrap(),
        JsonValue::String(s) => Value::String(s.clone()),
        JsonValue::Array(a) => Value::Array(a.iter().map(from_doc).collect()),
        JsonValue::Object(o) => Value::Object(
            o.iter().map(|(k, v)| (k.clone(), from_doc(v))).collect(),
        ),
    }
}

fn v(text: &str) -> Value {
    serde_json::from_str(text).unwrap()
}

fn choice(entry: u64) -> AbilityChoice {
    AbilityChoice { entry }
}

#[test]
fn equipped_snapshots_follow_slot_order_and_skip_missing_or_null_rows() {
    let document = to_doc(&v(r#"{
        "state": {
            "characters": [{
                "equipment": {
                    "emote": true,
                    "subclass": {
                        "instance_soid": "0x0000000000000004",
                        "definition_hash": "0x00000005",
                        "level": 75,
                        "quantity": 1,
                        "plugs": []
                    },
                    "energy": null,
                    "helmet": {
                        "instance_soid": 3,
                        "definition_hash": 4,
                        "level": 76,
                        "quantity": 1,
                        "plugs": [null, "0x00000006", 7, "not-a-hash"]
                    },
                    "kinetic": {
                        "instance_soid": "0x0000000000000001",
                        "definition_hash": "0x00000002",
                        "level": 75,
                        "quantity": 1,
                        "plugs": null
                    }
                }
            }]
        }
    }"#));

    let snapshots = equipped_item_snapshots(&document, 0).unwrap();
    assert_eq!(
        snapshots.iter().map(|snapshot| snapshot.slot).collect::<Vec<_>>(),
        ["kinetic", "helmet", "subclass", "emote"]
    );

    let kinetic = &snapshots[0];
    assert_eq!(kinetic.slot_label, "Kinetic");
    assert_eq!(kinetic.bucket_hash, 1_498_876_634);
    assert_eq!(kinetic.definition_hash, Some(2));
    assert_eq!(kinetic.definition_text, "0x00000002");
    assert_eq!(kinetic.instance_soid, Some(1));
    assert_eq!(kinetic.instance_soid_text, "0x0000000000000001");
    assert_eq!(kinetic.level, Some(75));
    assert_eq!(kinetic.quantity, Some(1));
    assert_eq!(kinetic.plugs, EquippedItemPlugs::NativeDefaults);
    assert!(kinetic.issues.is_empty());

    assert_eq!(
        snapshots[1].plugs,
        EquippedItemPlugs::Authored(vec![
            EquippedPlugValue::Empty,
            EquippedPlugValue::Hash(6),
            EquippedPlugValue::Hash(7),
            EquippedPlugValue::Malformed("\"not-a-hash\"".to_owned()),
        ])
    );
    assert!(snapshots[1].issues.iter().any(|issue| issue.contains("plug 3")));

    assert_eq!(snapshots[2].slot, "subclass");
    assert_eq!(snapshots[3].raw_item_text, "true");
    assert_eq!(snapshots[3].definition_hash, None);
    assert!(matches!(
        snapshots[3].plugs,
        EquippedItemPlugs::Malformed(ref raw) if raw == "true"
    ));
    assert_eq!(snapshots[3].issues, ["equipment row must be an object"]);
}

#[test]
fn equipped_snapshots_retain_invalid_fields_and_report_issues() {
    let document = to_doc(&v(r#"{
        "state": {
            "characters": [{
                "equipment": {
                    "kinetic": {
                        "instance_soid": 0,
                        "definition_hash": "invalid",
                        "level": -1,
                        "quantity": 0,
                        "plugs": {"unexpected": true}
                    }
                }
            }]
        }
    }"#));

    let snapshots = equipped_item_snapshots(&document, 0).unwrap();
    let snapshot = &snapshots[0];
    assert_eq!(snapshot.definition_hash, None);
    assert_eq!(snapshot.definition_text, "invalid");
    assert_eq!(snapshot.instance_soid, Some(0));
    assert_eq!(snapshot.level, Some(-1));
    assert_eq!(snapshot.quantity, Some(0));
    assert_eq!(
        snapshot.plugs,
        EquippedItemPlugs::Malformed("{\"unexpected\":true}".to_owned())
    );
    assert_eq!(snapshot.issues.len(), 5);
}

#[test]
fn equipped_snapshots_reject_an_unusable_equipment_path() {
    let missing_characters = to_doc(&v(r#"{"state": {}}"#));
    assert!(equipped_item_snapshots(&missing_characters, 0).is_err());

    let missing_character = to_doc(&v(r#"{"state": {"characters": []}}"#));
    assert!(equipped_item_snapshots(&missing_character, 0).is_err());

    let missing_equipment = to_doc(&v(r#"{"state": {"characters": [{}]}}"#));
    assert!(equipped_item_snapshots(&missing_equipment, 0).unwrap().is_empty());

    let malformed_equipment = to_doc(&v(r#"{"state": {"characters": [{"equipment": []}]}}"#));
    assert!(equipped_item_snapshots(&malformed_equipment, 0).is_err());
}

#[test]
fn inferred_item_level_uses_the_highest_positive_equipped_level() {
    let document = to_doc(&v(r#"{
        "state": {
            "characters": [{
                "equipment": {
                    "ghost": {"level": 0},
                    "kinetic": {"level": 75},
                    "energy": {"level": 106},
                    "helmet": {"level": -1}
                }
            }]
        }
    }"#));
    assert_eq!(inferred_item_level(&document, 0), 106);

    let unpowered = to_doc(&v(
        r#"{"state": {"characters": [{"equipment": {"ghost": {"level": 0}}}]}}"#,
    ));
    assert_eq!(inferred_item_level(&unpowered, 0), 106);
}

#[test]
fn new_rows_start_at_the_inferred_level_only_in_low_buckets() {
    let document = to_doc(&v(
        r#"{"state": {"characters": [{"equipment": {"kinetic": {"level": 75}}}]}}"#,
    ));
    assert_eq!(default_inventory_item_level(&document, 0, 0), 75);
    assert_eq!(default_inventory_item_level(&document, 0, 7), 75);
    assert_eq!(default_inventory_item_level(&document, 0, 8), 0);
    assert_eq!(default_inventory_item_level(&document, 4, 3), 106);
}

#[test]
fn semantic_equipment_field_edits_do_not_touch_stored_inventory() {
    let mut document = to_doc(&v(r#"{
        "version": 6,
        "state": {
            "characters": [{
                "equipment": {
                    "kinetic": {"level": 200, "flags": 2},
                    "energy": {"level": 106}
                },
                "inventory": [{"level": 75, "flags": 1}]
            }]
        }
    }"#));

    set_equipment_item_level(&mut document, 0, "kinetic", 75).unwrap();
    let locked = set_inventory_locked_flag(Some(2), true);
    set_equipment_item_flags(&mut document, 0, "kinetic", locked).unwrap();

    let after = from_doc(&document);
    assert_eq!(after.pointer("/state/characters/0/equipment/kinetic/level"), Some(&v("75")));
    assert_eq!(after.pointer("/state/characters/0/equipment/kinetic/flags"), Some(&v("3")));
    assert_eq!(after.pointer("/state/characters/0/equipment/energy/level"), Some(&v("106")));
    assert_eq!(
        after.pointer("/state/characters/0/inventory/0"),
        Some(&v(r#"{"level": 75, "flags": 1}"#))
    );

    let unchanged = from_doc(&document);
    assert!(set_equipment_item_level(&mut document, 0, "future_slot", 75).is_err());
    assert_eq!(from_doc(&document), unchanged);
    assert!(set_equipment_item_flags(&mut document, 0, "kinetic", Some(8)).is_err());
    assert_eq!(from_doc(&document), unchanged);
}

#[test]
fn equipment_flag_mutation_follows_schema_introduction_and_is_atomic() {
    for version in 2..=6u64 {
        let before = v(&format!(
            r#"{{
                "version": {version},
                "state": {{
                    "characters": [{{
                        "equipment": {{
                            "kinetic": {{
                                "level": 106,
                                "flags": 2,
                                "future": {{"preserved": true}}
                            }}
                        }}
                    }}]
                }}
            }}"#
        ));
        let mut document = to_doc(&before);
        let result = set_equipment_item_flags(&mut document, 0, "kinetic", Some(3));

        if version < EQUIPMENT_FLAGS_SCHEMA_VERSION {
            assert!(result.is_err(), "schema {version} unexpectedly allowed flags");
            assert_eq!(from_doc(&document), before);
        } else {
            result.unwrap();
            let after = from_doc(&document);
            assert_eq!(after.pointer("/state/characters/0/equipment/kinetic/flags"), Some(&v("3")));
            assert_eq!(
                after.pointer("/state/characters/0/equipment/kinetic/future/preserved"),
                Some(&Value::Bool(true))
            );
        }
    }
}

#[test]
fn catalyst_state_updates_equipment_plug_and_flags_atomically() {
    let value = v(r#"{
        "version": 6,
        "state": {
            "characters": [{
                "equipment": {
                    "kinetic": {
                        "plugs": null,
                        "flags": 3,
                        "future": {"preserved": true}
                    }
                },
                "inventory": [{"plugs": ["0x00000063"], "flags": 1}]
            }]
        }
    }"#);
    let mut document = to_doc(&value);
    let stored_before = value.pointer("/state/characters/0/inventory").cloned();
    let defaults = vec![Some(format_hash(5)), Some(format_hash(10))];
    let catalyst = CatalystSocket {
        socket_index: 1,
        unacquired_plug: 10,
        in_progress_plug: 20,
        completed_plug: 30,
    };

    set_equipment_item_catalyst(&mut document, 0, "kinetic", &defaults, catalyst, CatalystState::Completed)
        .unwrap();
    let after = from_doc(&document);
    assert_eq!(
        after.pointer("/state/characters/0/equipment/kinetic/plugs"),
        Some(&v(r#"["0x00000005", "0x0000001E"]"#))
    );
    assert_eq!(after.pointer("/state/characters/0/equipment/kinetic/flags"), Some(&v("7")));
    assert_eq!(
        after.pointer("/state/characters/0/equipment/kinetic/future/preserved"),
        Some(&v("true"))
    );
    assert_eq!(after.pointer("/state/characters/0/inventory"), stored_before.as_ref());

    let mut missing_flags = to_doc(&v(r#"{
        "version": 6,
        "state": {
            "characters": [{
                "equipment": {"kinetic": {"plugs": null}}
            }]
        }
    }"#));
    set_equipment_item_catalyst(&mut missing_flags, 0, "kinetic", &defaults, catalyst, CatalystState::Completed)
        .unwrap();
    let after = from_doc(&missing_flags);
    assert_eq!(
        after.pointer("/state/characters/0/equipment/kinetic/plugs"),
        Some(&v(r#"["0x00000005", "0x0000001E"]"#))
    );
    assert_eq!(
        after.pointer("/state/characters/0/equipment/kinetic/flags"),
        Some(&Value::from(INVENTORY_FLAG_MASTERWORK))
    );
}

fn test_subclass() -> ItemDefinition {
    ItemDefinition {
        hash: 42,
        name: "Test subclass".to_owned(),
        item_type: "Subclass".to_owned(),
        bucket_hash: 3_284_755_031,
        class_type: 0,
        default_plugs: vec![Some("0x0000000A".to_owned()), None],
        abilities: AbilityOptions {
            movement: vec![choice(6)],
            grenade: vec![choice(7)],
            super_ability: vec![choice(10)],
            melee: vec![choice(11)],
            class_ability: vec![choice(2)],
            attunements: Vec::new(),
        },
    }
}

#[test]
fn subclass_equipping_updates_definition_and_default_abilities_atomically() {
    let mut document = to_doc(&v(r#"{
        "version": 6,
        "state": {
            "characters": [{
                "class": 0,
                "movement_ability": 99,
                "grenade_ability": 99,
                "super_ability": 99,
                "melee_ability": 99,
                "class_ability": 99,
                "equipment": {
                    "subclass": {
                        "instance_soid": "0x0000000000000001",
                        "definition_hash": "0x00000001",
                        "level": 0,
                        "quantity": 1,
                        "plugs": null
                    }
                }
            }]
        }
    }"#));
    let item = test_subclass();

    equip_subclass_with_default_abilities(&mut document, 0, &item).unwrap();
    let after = from_doc(&document);
    assert_eq!(
        after.pointer("/state/characters/0/equipment/subclass/definition_hash"),
        Some(&v(r#""0x0000002A""#))
    );
    assert_eq!(
        after.pointer("/state/characters/0/equipment/subclass/plugs"),
        Some(&v(r#"["0x0000000A", null]"#))
    );
    for (field, expected) in [
        ("movement_ability", 6),
        ("grenade_ability", 7),
        ("super_ability", 10),
        ("melee_ability", 11),
        ("class_ability", 2),
    ] {
        assert_eq!(
            after.pointer(&format!("/state/characters/0/{field}")),
            Some(&Value::from(expected))
        );
    }

    let mut value = from_doc(&document);
    let previous_subclass = value
        .pointer("/state/characters/0/equipment/subclass")
        .unwrap()
        .clone();
    let character = value
        .pointer_mut("/state/characters/0")
        .and_then(Value::as_object_mut)
        .unwrap();
    character.insert(
        "inventory".into(),
        v(r#"[{
            "instance_soid": "0x0000000000000002",
            "definition_hash": "0x0000002A",
            "level": 0,
            "quantity": 1,
            "plugs": ["0x0000000B", null]
        }]"#),
    );
    for field in [
        "movement_ability",
        "grenade_ability",
        "super_ability",
        "melee_ability",
        "class_ability",
    ] {
        character.insert(field.into(), Value::from(99));
    }
    let mut document = to_doc(&value);

    assert!(equip_inventory_item(
        &mut document,
        InventoryItemLocation {
            character_index: 0,
            item_index: 0,
        },
        "subclass",
        &item,
    )
    .unwrap());
    let after = from_doc(&document);
    assert_eq!(
        after.pointer("/state/characters/0/equipment/subclass/instance_soid"),
        Some(&v(r#""0x0000000000000002""#))
    );
    assert_eq!(after.pointer("/state/characters/0/inventory/0"), Some(&previous_subclass));
    for (field, expected) in [
        ("movement_ability", 6),
        ("grenade_ability", 7),
        ("super_ability", 10),
        ("melee_ability", 11),
        ("class_ability", 2),
    ] {
        assert_eq!(
            after.pointer(&format!("/state/characters/0/{field}")),
            Some(&Value::from(expected))
        );
    }

    let unchanged = from_doc(&document);
    let mut wrong_bucket = item.clone();
    wrong_bucket.bucket_hash = 0;
    assert!(equip_subclass_with_default_abilities(&mut document, 0, &wrong_bucket).is_err());
    assert_eq!(from_doc(&document), unchanged);

    let mut wrong_class = item.clone();
    wrong_class.class_type = 1;
    assert!(equip_subclass_with_default_abilities(&mut document, 0, &wrong_class).is_err());
    assert_eq!(from_doc(&document), unchanged);

    let original = v(r#"{
        "version": 6,
        "state": {"characters": [{"class": 0, "equipment": []}]}
    }"#);
    let mut malformed = to_doc(&original);
    assert!(equip_subclass_with_default_abilities(&mut malformed, 0, &item).is_err());
    assert_eq!(from_doc(&malformed), original);
}

#[test]
fn arcstrider_and_sentinel_subclass_edits_keep_the_base_super_lane() {
    for (hash, class_type, name) in [(0x4F91_DC97u64, 1u64, "Arcstrider"), (0xC99B_33E9, 0, "Sentinel")] {
        let mut document = to_doc(&v(&format!(
            r#"{{
                "version": 6,
                "state": {{
                    "characters": [{{
                        "soid": "0x9EAA300200100100",
                        "class": {class_type},
                        "movement_ability": 4,
                        "grenade_ability": 9,
                        "super_ability": 20,
                        "melee_ability": 21,
                        "class_ability": 3,
                        "equipment": {{
                            "subclass": {{
                                "instance_soid": "0x4000000000000001",
                                "definition_hash": "0x00000001",
                                "level": 0,
                                "quantity": 1,
                                "plugs": null
                            }}
                        }}
                    }}]
                }}
            }}"#
        )));
        let item = ItemDefinition {
            hash,
            name: name.to_owned(),
            item_type: "Subclass".to_owned(),
            bucket_hash: 3_284_755_031,
            class_type,
            default_plugs: Vec::new(),
            abilities: AbilityOptions {
                movement: vec![choice(4), choice(6)],
                grenade: vec![choice(7)],
                super_ability: vec![choice(20), choice(10)],
                melee: vec![choice(21), choice(11)],
                class_ability: vec![choice(2)],
                attunements: Vec::new(),
            },
        };

        equip_subclass_with_default_abilities(&mut document, 0, &item).unwrap();
        let after = from_doc(&document);
        assert_eq!(
            after.pointer("/state/characters/0/super_ability"),
            Some(&Value::from(10)),
            "{name} selected the wrong super lane"
        );
        assert_eq!(
            after.pointer("/state/characters/0/melee_ability"),
            Some(&Value::from(11)),
            "{name} selected the wrong melee lane"
        );
        assert_eq!(validate_characters(&document), Ok(()), "{name} produced an invalid character");
    }
}

#[test]
fn emptying_a_weapon_slot_refuses_other_slots_and_unexpected_data() {
    let value = v(r#"{"state": {"characters": [{"equipment": {"kinetic": {"level": 1}, "energy": 5}}]}}"#);
    let mut document = to_doc(&value);
    assert!(set_weapon_slot_empty(&mut document, 0, "helmet").is_err());
    assert!(set_weapon_slot_empty(&mut document, 0, "energy").is_err());
    assert_eq!(from_doc(&document), value);
    set_weapon_slot_empty(&mut document, 0, "kinetic").unwrap();
    set_weapon_slot_empty(&mut document, 0, "heavy").unwrap();
    let after = from_doc(&document);
    assert_eq!(after.pointer("/state/characters/0/equipment/kinetic"), Some(&Value::Null));
    assert_eq!(after.pointer("/state/characters/0/equipment/heavy"), Some(&Value::Null));
}

#[test]
fn displayed_plugs_show_native_defaults_for_null_and_matching_arrays() {
    let defaults = vec![Some("0x00000005".to_owned()), None];
    let (plugs, native) = displayed_plugs(Some(&JsonValue::Null), &defaults);
    assert!(native);
    assert_eq!(plugs.len(), 2);
    let authored = to_doc(&v(r#"["0x00000005", null]"#));
    assert!(displayed_plugs(Some(&authored), &defaults).1);
    let changed = to_doc(&v(r#"["0x00000006", null]"#));
    assert!(!displayed_plugs(Some(&changed), &defaults).1);
    let (none, native) = displayed_plugs(None, &defaults);
    assert!(none.is_empty() && !native);
    assert_eq!(native_plug_default(&defaults, 0), Some(NativePlugDefault::Plug(5)));
    assert_eq!(native_plug_default(&defaults, 1), Some(NativePlugDefault::Empty));
    assert_eq!(native_plug_default(&defaults, 2), None);
}

#[test]
fn export_ids_prefer_the_soid_then_the_class() {
    let document = to_doc(&v(r#"{"state": {"characters": [{"soid": "0x9EAA300200100100"}, {"class": 2}, {}]}}"#));
    assert_eq!(character_id_for_export(&document, 0), "9EAA300200100100");
    assert_eq!(character_id_for_export(&document, 1), "class2");
    assert_eq!(character_id_for_export(&document, 2), "char2");
    assert_eq!(character_id_for_export(&document, 7), "char7");
}

#[test]
fn class_armor_restores_every_member_but_the_soid() {
    let document = to_doc(&v(r#"{"state": {"characters": [
        {"class": 1, "equipment": {"helmet": {"instance_soid": 1, "definition_hash": 10, "plugs": null}, "kinetic": {"level": 1}}},
        {"class": 1, "equipment": {"helmet": {"instance_soid": 2, "definition_hash": 11}}},
        {"class": 0, "equipment": {"chest": {"instance_soid": 3, "definition_hash": 12}}}
    ]}}"#));
    let defaults = collect_class_armor_defaults(&document);
    assert_eq!(defaults.len(), 2);
    assert_eq!(defaults[0].0, 1);
    assert_eq!(defaults[0].1.len(), 1);
    assert_eq!(defaults[1].0, 0);

    let value = v(r#"{"class": 1, "equipment": {"helmet": {"instance_soid": 7, "definition_hash": 99, "extra": true}}}"#);
    let mut character = match to_doc(&value) {
        JsonValue::Object(o) => o,
        _ => unreachable!(),
    };
    assert!(restore_class_armor(&mut character, &defaults[0].1));
    let restored_doc = JsonValue::Object(character);
    let restored = from_doc(&restored_doc);
    assert_eq!(
        restored.pointer("/equipment/helmet"),
        Some(&v(r#"{"instance_soid": 7, "definition_hash": 10, "plugs": null, "extra": true}"#))
    );
    let mut character = match restored_doc {
        JsonValue::Object(o) => o,
        _ => unreachable!(),
    };
    assert!(!restore_class_armor(&mut character, &defaults[0].1));
}
