use serde_json::Value;
use sundial::bucket_usage::{inventory_bucket_usage, metadata_lookup, profile_bucket_usage};
use sundial::inventory::{InventoryItemLocation, ItemPlugs};
use sundial::inventory_page::{
    InventoryItemSnapshot, InventoryMetadata, InventoryScope, ItemStackability,
};
use sundial::json::{FloatNumber, JsonNumber, JsonValue};
use sundial::profile::{ProfileItemLocation, ProfileItemSnapshot};

fn to_doc(value: &Value) -> JsonValue {
    match value {
        Value::Null => JsonValue::Null,
        Value::Bool(b) => JsonValue::Bool(*b),
        Value::Number(n) => {
            if let Some(u) = n.as_u64() {
                JsonValue::Number(JsonNumber::PosInt(u))
            } else if let Some(i) = n.as_i64() {
                JsonValue::Number(JsonNumber::NegInt(i))
            } else {
                JsonValue::Number(JsonNumber::Float(FloatNumber {
                    text: n.to_string(),
                    finite_as_f32: true,
                }))
            }
        }
        Value::String(s) => JsonValue::String(s.clone()),
        Value::Array(a) => JsonValue::Array(a.iter().map(to_doc).collect()),
        Value::Object(o) => {
            JsonValue::Object(o.iter().map(|(k, v)| (k.clone(), to_doc(v))).collect())
        }
    }
}

fn doc(text: &str) -> JsonValue {
    to_doc(&serde_json::from_str::<Value>(text).unwrap())
}

fn meta(scope: InventoryScope, bucket: u8) -> InventoryMetadata {
    InventoryMetadata {
        scope,
        native_bucket_id: bucket,
        stackability: ItemStackability::Instanced,
        max_stack_size: None,
        bucket_capacity: Some(9),
    }
}

fn catalog() -> Vec<(u64, InventoryMetadata)> {
    vec![
        (10, meta(InventoryScope::Character, 1)),
        (11, meta(InventoryScope::Character, 2)),
        (20, meta(InventoryScope::Profile, 8)),
        (30, meta(InventoryScope::Unknown, 0)),
        (10, meta(InventoryScope::Profile, 5)),
    ]
}

fn profile_row(index: usize, hash: u32) -> ProfileItemSnapshot {
    ProfileItemSnapshot {
        location: ProfileItemLocation { index },
        definition_hash: hash,
        quantity: 1,
    }
}

fn character_row(item_index: usize, hash: u32) -> InventoryItemSnapshot {
    InventoryItemSnapshot {
        location: InventoryItemLocation {
            character_index: 0,
            item_index,
        },
        instance_soid: 1,
        definition_hash: hash,
        level: 1,
        quantity: 1,
        plugs: ItemPlugs::NativeDefaults,
        flags: None,
    }
}

#[test]
fn metadata_lookup_takes_the_first_entry() {
    let table = catalog();
    assert_eq!(metadata_lookup(&table, 10).map(|m| m.native_bucket_id), Some(1));
    assert_eq!(metadata_lookup(&table, 20).map(|m| m.native_bucket_id), Some(8));
    assert!(metadata_lookup(&table, 99).is_none());
}

#[test]
fn profile_usage_counts_profile_rows_and_flags_misplaced_ones() {
    let rows = vec![profile_row(0, 20), profile_row(1, 20), profile_row(2, 30), profile_row(3, 99)];
    let usage = profile_bucket_usage(&catalog(), &rows);
    assert_eq!(usage.counts.get(&8), Some(&2));
    assert_eq!(usage.counts.len(), 1);
    assert_eq!(usage.unresolved_count, 2);
    assert!(usage.occupancy_complete);

    let misplaced = vec![profile_row(0, 11)];
    let usage = profile_bucket_usage(&catalog(), &misplaced);
    assert!(usage.counts.is_empty());
    assert_eq!(usage.unresolved_count, 1);
    assert!(!usage.occupancy_complete);
}

#[test]
fn inventory_usage_counts_equipment_then_rows() {
    let document = doc(
        r#"{"state":{"characters":[{"equipment":{"kinetic":{"definition_hash":10},"energy":null,"heavy":{"definition_hash":"0x0000000B"}}}]}}"#,
    );
    let rows = vec![character_row(0, 10), character_row(1, 30)];
    let usage = inventory_bucket_usage(&document, 0, &catalog(), &rows);
    assert_eq!(usage.counts.get(&1), Some(&2));
    assert_eq!(usage.counts.get(&2), Some(&1));
    assert_eq!(usage.unresolved_count, 1);
    assert!(usage.occupancy_complete);
}

#[test]
fn inventory_usage_is_incomplete_without_a_character_or_with_unknown_slots() {
    let document = doc(r#"{"state":{"characters":[{"equipment":{"mystery_slot":null}}]}}"#);
    let usage = inventory_bucket_usage(&document, 0, &catalog(), &Vec::new());
    assert!(!usage.occupancy_complete);
    assert!(usage.counts.is_empty());

    let usage = inventory_bucket_usage(&document, 3, &catalog(), &vec![character_row(0, 10)]);
    assert!(!usage.occupancy_complete);
    assert_eq!(usage.counts.get(&1), Some(&1));

    let document = doc(r#"{"state":{"characters":[{"equipment":[]}]}}"#);
    let usage = inventory_bucket_usage(&document, 0, &catalog(), &Vec::new());
    assert!(!usage.occupancy_complete);
}
