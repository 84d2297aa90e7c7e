use serde_json::Value;
use sundial::characters::{character_ability_issue, repair_known_ability_pairs, validate_characters};
use sundial::inventory::{profile_item_capacity, schema_mode, SchemaMode};
use sundial::validation::validate_document;
use sundial::json::{parse_hash, parse_unsigned_value, FloatNumber, JsonNumber, JsonValue};

fn to_doc(value: &Value) -> JsonValue {
    match value {
        Value::Null => JsonValue::Null,
        Value::Bool(b) => JsonValue::Bool(*b),
        Value::Number(n) => {
            if let Some(u) = n.as_u64() {
                JsonValue::Number(JsonNumber::PosInt(u))
            } else if let Some(i) = n.as_i64() {
                JsonValue::Number(JsonNumber::NegInt(i))
            } else {
                let f = n.as_f64().unwrap_or(f64::NAN);
                JsonValue::Number(JsonNumber::Float(FloatNumber {
                    text: n.to_string(),
                    finite_as_f32: (f as f32).is_finite(),
                }))
            }
        }
        Value::String(s) => JsonValue::String(s.clone()),
        Value::Array(a) => JsonValue::Array(a.iter().map(to_doc).collect()),
        Value::Object(o) => JsonValue::Object(
            o.iter().map(|(k, v)| (k.clone(), to_doc(v))).collect(),
        ),
    }
}

fn from_doc(value: &JsonValue) -> Value {
    match value {
        JsonValue::Null => Value::Null,
        JsonValue::Bool(b) => Value::Bool(*b),
        JsonValue::Number(JsonNumber::PosInt(u)) => Value::from(*u),
        JsonValue::Number(JsonNumber::NegInt(i)) => Value::from(*i),
        JsonValue::Number(JsonNumber::Float(f)) => serde_json::from_str(&f.text).unwrap(),
        JsonValue::String(s) => Value::String(s.clone()),
        JsonValue::Array(a) => Value::Array(a.iter().map(from_doc).collect()),
        JsonValue::Object(o) => Value::Object(
            o.iter().map(|(k, v)| (k.clone(), from_doc(v))).collect(),
        ),
    }
}

fn doc(text: &str) -> JsonValue {
    to_doc(&serde_json::from_str(text).unwrap())
}

fn character_with(extra: &str) -> JsonValue {
    doc(&format!(
        r#"{{"version": 6, "state": {{"characters": [{{"soid": 1 {extra}}}]}}}}"#
    ))
}

#[test]
fn schema_modes_are_explicit_about_mutability() {
    assert_eq!(schema_mode(&doc("{}")), SchemaMode::MissingOrInvalid);
    assert_eq!(schema_mode(&doc(r#"{"version": 1}"#)), SchemaMode::Unsupported(1));
    assert_eq!(schema_mode(&doc(r#"{"version": 3}"#)), SchemaMode::PreInventory(3));
    assert_eq!(schema_mode(&doc(r#"{"version": 6}"#)), SchemaMode::InventoryV6);
    assert_eq!(schema_mode(&doc(r#"{"version": 7}"#)), SchemaMode::Future(7));
    assert!(SchemaMode::Future(7).is_read_only());
    assert!(SchemaMode::Unsupported(1).is_read_only());
    assert!(!SchemaMode::Unsupported(1).can_mutate_profile_items());
    assert!(!SchemaMode::MissingOrInvalid.can_mutate_equipment());
    assert!(!SchemaMode::Unsupported(1).can_mutate_equipment());
    assert!(!SchemaMode::Future(7).can_mutate_equipment());
    assert!(!SchemaMode::MissingOrInvalid.supports_equipment_flags());
    assert!(!SchemaMode::Unsupported(1).supports_equipment_flags());
    assert!(SchemaMode::Future(7).supports_equipment_flags());
    assert!(!SchemaMode::Future(7).can_mutate_equipment_flags());
    for version in 2..=5 {
        let mode = schema_mode(&doc(&format!(r#"{{"version": {version}}}"#)));
        assert!(mode.can_mutate_profile_items());
        assert!(!mode.can_mutate_character_inventory());
        assert!(mode.can_mutate_equipment());
        assert_eq!(mode.supports_equipment_flags(), version >= 4);
        assert_eq!(mode.can_mutate_equipment_flags(), version >= 4);
        assert_eq!(mode.supports_dismantle_rewards(), version >= 5);
    }
    assert!(SchemaMode::InventoryV6.can_mutate_profile_items());
    assert!(SchemaMode::InventoryV6.can_mutate_character_inventory());
    assert!(SchemaMode::InventoryV6.can_mutate_equipment());
    assert!(SchemaMode::InventoryV6.supports_equipment_flags());
    assert!(SchemaMode::InventoryV6.can_mutate_equipment_flags());
    assert!(SchemaMode::InventoryV6.supports_dismantle_rewards());
    assert_eq!(profile_item_capacity(3), 32);
    assert_eq!(profile_item_capacity(4), 701);
}

#[test]
fn hash_strings_and_integers_read_as_unsigned_values() {
    assert_eq!(parse_hash("0x0000002A"), Some(42));
    assert_eq!(parse_hash("0XfF"), Some(255));
    assert_eq!(parse_hash("0xFFFFFFFFFFFFFFFF"), Some(u64::MAX));
    assert_eq!(parse_hash("0x10000000000000000"), None);
    assert_eq!(parse_hash("0x"), None);
    assert_eq!(parse_hash("42"), None);
    assert_eq!(parse_hash("0xZZ"), None);
    assert_eq!(parse_unsigned_value(&doc("7")), Some(7));
    assert_eq!(parse_unsigned_value(&doc("-7")), None);
    assert_eq!(parse_unsigned_value(&doc(r#""0x10""#)), Some(16));
    assert_eq!(parse_unsigned_value(&doc("1.5")), None);
}

#[test]
fn documents_without_characters_are_valid() {
    assert_eq!(validate_characters(&doc("{}")), Ok(()));
    assert_eq!(validate_characters(&doc(r#"{"state": {}}"#)), Ok(()));
    assert_eq!(
        validate_characters(&doc(r#"{"state": {"characters": {}}}"#)),
        Err("state.characters must be an array".to_owned())
    );
    assert_eq!(
        validate_characters(&doc(
            r#"{"state": {"characters": [{"soid": 1}, {"soid": 2}, {"soid": 3}, {"soid": 4}]}}"#
        )),
        Err("state.characters cannot contain more than 3 characters".to_owned())
    );
}

#[test]
fn character_fields_are_checked_in_order() {
    assert_eq!(validate_characters(&character_with("")), Ok(()));
    assert_eq!(
        validate_characters(&doc(r#"{"state": {"characters": [7]}}"#)),
        Err("Character 1 must be an object".to_owned())
    );
    assert_eq!(
        validate_characters(&doc(r#"{"state": {"characters": [{"soid": 0}]}}"#)),
        Err("Character 1 has an invalid SOID".to_owned())
    );
    assert_eq!(
        validate_characters(&character_with(r#", "class": 3"#)),
        Err("Character 1 has an invalid class".to_owned())
    );
    assert_eq!(
        validate_characters(&character_with(r#", "level": 256"#)),
        Err("Character 1 has an invalid level (expected 0 to 255)".to_owned())
    );
    assert_eq!(
        validate_characters(&character_with(r#", "accepted": 1"#)),
        Err("Character 1 has an invalid accepted state".to_owned())
    );
    assert_eq!(
        validate_characters(&character_with(r#", "appearance_value": "x""#)),
        Err("Character 1 has an invalid appearance value".to_owned())
    );
    assert_eq!(validate_characters(&character_with(r#", "appearance_value": 0.5"#)), Ok(()));
    assert_eq!(
        validate_characters(&character_with(r#", "appearance_value": 1e300"#)),
        Err("Character 1 has an invalid appearance value".to_owned())
    );
    assert_eq!(
        validate_characters(&character_with(r#", "last_orbited_destination": "0x100000000""#)),
        Err("Character 1 has an invalid last orbited destination".to_owned())
    );
    assert_eq!(
        validate_characters(&character_with(r#", "equipment": []"#)),
        Err("Character 1 equipment must be an object".to_owned())
    );
    assert_eq!(
        validate_characters(&character_with(r#", "equipment": {"wings": null}"#)),
        Err("Character 1 has an unknown equipment slot: wings".to_owned())
    );
}

#[test]
fn equipped_items_are_checked_slot_by_slot() {
    let item = |fields: &str| {
        character_with(&format!(r#", "equipment": {{"kinetic": null, "energy": {{{fields}}}}}"#))
    };
    let good = r#""definition_hash": "0x00000001", "instance_soid": 5, "level": 10, "quantity": 1, "plugs": null"#;
    assert_eq!(validate_characters(&item(good)), Ok(()));
    assert_eq!(
        validate_characters(&item(r#""definition_hash": "0x811C9DC5""#)),
        Err("Character 1 Energy has an invalid definition hash".to_owned())
    );
    assert_eq!(
        validate_characters(&item(r#""definition_hash": 1, "instance_soid": 5, "level": -1"#)),
        Err("Character 1 Energy has an invalid item level".to_owned())
    );
    assert_eq!(
        validate_characters(&item(r#""definition_hash": 1, "instance_soid": 5, "level": 1, "quantity": 0"#)),
        Err("Character 1 Energy has an invalid quantity".to_owned())
    );
    assert_eq!(
        validate_characters(&item(r#""definition_hash": 1, "instance_soid": 5, "level": 1, "quantity": 1"#)),
        Err("Character 1 Energy plugs must be null or an array".to_owned())
    );
    assert_eq!(
        validate_characters(&item(
            r#""definition_hash": 1, "instance_soid": 5, "level": 1, "quantity": 1, "plugs": [null, "0x811C9DC5"]"#
        )),
        Err("Character 1 Energy contains an invalid plug hash".to_owned())
    );
    assert_eq!(
        validate_characters(&item(&format!(r#"{good}, "flags": 8"#))),
        Err("Character 1 Energy flags must be between 0 and 7".to_owned())
    );
    let old_schema = doc(&format!(
        r#"{{"version": 3, "state": {{"characters": [{{"soid": 1, "equipment": {{"energy": {{{good}, "flags": 1}}}}}}]}}}}"#
    ));
    assert_eq!(
        validate_characters(&old_schema),
        Err("Character 1 Energy flags require settings schema 4 or newer".to_owned())
    );
}

#[test]
fn shadowkeep_subclasses_restrict_ability_entries() {
    let character = |abilities: &str| {
        doc(&format!(
            r#"{{"soid": 1, "equipment": {{"subclass": {{"definition_hash": "0xB0554739"}}}} {abilities}}}"#
        ))
    };
    let issue = |value: &JsonValue| match value {
        JsonValue::Object(o) => character_ability_issue(o),
        _ => unreachable!(),
    };
    assert_eq!(issue(&character(r#", "super_ability": 20, "melee_ability": 21"#)), None);
    assert_eq!(
        issue(&character(r#", "movement_ability": 7"#)),
        Some("has an unsupported movement ability entry 7 for Striker".to_owned())
    );
    assert_eq!(
        issue(&character(r#", "super_ability": 10, "melee_ability": 21"#)),
        Some(
            "has an unsupported super and melee combination (10/21) for Striker; expected 10/11, 10/15, or 20/21"
                .to_owned()
        )
    );
    let document = doc(&format!(
        r#"{{"state": {{"characters": [{{"soid": 1, "equipment": {{"subclass": {{"definition_hash": "0xB0554739"}}}}, "super_ability": 10, "melee_ability": 21}}]}}}}"#
    ));
    assert_eq!(
        validate_characters(&document),
        Err("Character 1 has an unsupported super and melee combination (10/21) for Striker; expected 10/11, 10/15, or 20/21".to_owned())
    );
}

#[test]
fn mismatched_super_and_melee_pairs_are_repaired() {
    let mut document = doc(
        r#"{"state": {"other": 1, "characters": [
            {"soid": 1, "equipment": {"subclass": {"definition_hash": "0xB0554739"}}, "super_ability": 10, "melee_ability": 21},
            {"soid": 2, "equipment": {"subclass": {"definition_hash": "0x4F91DC97"}}, "super_ability": 20, "melee_ability": 30},
            {"soid": 3, "equipment": {"subclass": {"definition_hash": "0xB0554739"}}, "super_ability": 10, "melee_ability": 15},
            {"soid": 4, "super_ability": 1, "melee_ability": 1}
        ]}}"#,
    );
    assert_eq!(repair_known_ability_pairs(&mut document), 2);
    let value = from_doc(&document);
    assert_eq!(value["state"]["characters"][0]["super_ability"], 20);
    assert_eq!(value["state"]["characters"][0]["melee_ability"], 21);
    assert_eq!(value["state"]["characters"][1]["super_ability"], 10);
    assert_eq!(value["state"]["characters"][1]["melee_ability"], 21);
    assert_eq!(value["state"]["characters"][2]["melee_ability"], 15);
    assert_eq!(value["state"]["characters"][3]["super_ability"], 1);
    assert_eq!(value["state"]["other"], 1);
    assert_eq!(repair_known_ability_pairs(&mut document), 0);

    let mut no_characters = doc(r#"{"state": {}}"#);
    assert_eq!(repair_known_ability_pairs(&mut no_characters), 0);
    assert_eq!(from_doc(&no_characters), serde_json::from_str::<Value>(r#"{"state": {}}"#).unwrap());
}

#[test]
fn whole_documents_check_characters_before_items() {
    assert_eq!(
        validate_document(&doc("{}")),
        Err("/version: settings schema version is missing or invalid".to_owned())
    );
    assert_eq!(
        validate_document(&doc(r#"{"state": {"characters": {}}}"#)),
        Err("state.characters must be an array".to_owned())
    );
    let bad_items = doc(r#"{"version": 6, "state": {"account": {"profile_items": 3}}}"#);
    assert!(validate_document(&bad_items).is_err());
}

#[test]
fn repairing_twice_leaves_the_document_as_it_is() {
    let mut document = doc(
        r#"{"state": {"characters": [
            {"soid": 1, "equipment": {"subclass": {"definition_hash": "0xB0554739"}}, "super_ability": 10, "melee_ability": 21},
            {"soid": 2, "equipment": {"subclass": {"definition_hash": "0x4F91DC97"}}, "super_ability": 7, "melee_ability": 7}
        ]}}"#,
    );
    assert_eq!(repair_known_ability_pairs(&mut document), 2);
    let once = from_doc(&document);
    assert_eq!(repair_known_ability_pairs(&mut document), 0);
    assert_eq!(from_doc(&document), once);
}
