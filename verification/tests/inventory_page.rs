use std::collections::HashMap;

use sundial::inventory::{InventoryItemAction, InventoryItemLocation, ItemPlugs};
use sundial::inventory_page::{
    definition_change_actions, equip_button_state, plugs_section_title, profile_quantity_max,
    profile_swap_candidate, replacement_context,
    bucket_add_tooltip, bucket_has_room, bucket_key_has_room, bucket_picker_open_request_key,
    character_bucket_rank, distinct_candidate_buckets, inventory_item_state_key,
    inventory_item_ui_identities, item_count_label, page_bucket_display_rank,
    profile_bucket_rank, scope_id, take_bucket_picker_open_request, without_definition_groups,
    BucketKey, BucketUsage, InventoryItemSnapshot, InventoryItemUiId, InventoryMetadata,
    InventoryScope,
};
use sundial::equipment::equipment_target_for_bucket;
use sundial::item_editor::DefinitionChoice;

fn snapshot(item_index: usize, instance_soid: u64) -> InventoryItemSnapshot {
    InventoryItemSnapshot {
        location: InventoryItemLocation {
            character_index: 0,
            item_index,
        },
        instance_soid,
        definition_hash: 1,
        level: 1,
        quantity: 1,
        plugs: ItemPlugs::NativeDefaults,
        flags: None,
    }
}

#[test]
fn per_item_swap_choices_omit_bucket_heading_rows() {
    let choices = without_definition_groups(vec![
        DefinitionChoice {
            hash: 1,
            name: "First".into(),
            item_type: "Kinetic weapon".into(),
            group: Some("Kinetic weapons".into()),
        },
        DefinitionChoice {
            hash: 2,
            name: "Second".into(),
            item_type: "Energy weapon".into(),
            group: Some("Energy weapons".into()),
        },
    ]);

    assert_eq!(
        choices.iter().map(|choice| choice.hash).collect::<Vec<_>>(),
        vec![1, 2]
    );
    assert!(choices.iter().all(|choice| choice.group.is_none()));
}

#[test]
fn only_known_equipment_buckets_get_inventory_equip_targets() {
    assert_eq!(
        equipment_target_for_bucket(1_498_876_634),
        Some(("kinetic", "Kinetic"))
    );
    assert_eq!(
        equipment_target_for_bucket(3_284_755_031),
        Some(("subclass", "Subclass"))
    );
    assert_eq!(equipment_target_for_bucket(0x59CA_1EA2), None);
}

#[test]
fn character_item_ui_ids_survive_index_shifts_and_disambiguate_bad_soids() {
    let before = inventory_item_ui_identities(&[snapshot(0, 10), snapshot(1, 20)]);
    let after = inventory_item_ui_identities(&[snapshot(0, 20)]);
    assert_eq!(before[1], after[0]);

    let duplicates = inventory_item_ui_identities(&[snapshot(0, 20), snapshot(1, 20)]);
    assert_ne!(duplicates[0], duplicates[1]);
    assert_eq!(duplicates[0].duplicate_ordinal, Some(0));
    assert_eq!(duplicates[1].duplicate_ordinal, Some(1));
}

#[test]
fn bucket_picker_open_request_waits_for_the_originating_click_frame() {
    let picker_key = "character-inventory:0:add:1:4";
    let request_key = bucket_picker_open_request_key(picker_key);
    let mut searches = vec![(request_key.clone(), String::new())];
    let contains = |searches: &Vec<(String, String)>| searches.iter().any(|(key, _)| *key == request_key);

    assert!(!take_bucket_picker_open_request(
        &mut searches,
        picker_key,
        true
    ));
    assert!(contains(&searches));
    assert!(take_bucket_picker_open_request(
        &mut searches,
        picker_key,
        false
    ));
    assert!(!contains(&searches));
    assert!(!take_bucket_picker_open_request(
        &mut searches,
        picker_key,
        false
    ));
}

#[test]
fn bucket_capacity_counts_only_present_rows_and_allows_same_bucket_replacement() {
    let metadata = InventoryMetadata {
        scope: InventoryScope::Character,
        native_bucket_id: 4,
        bucket_capacity: Some(3),
        ..InventoryMetadata::default()
    };
    let one_row_free = BucketUsage {
        // Present equipment and inventory rows are both included in this count.
        counts: HashMap::from([(4, 2)]),
        unresolved_count: 0,
        occupancy_complete: true,
    };
    assert!(bucket_has_room(&metadata, &one_row_free, None, false));

    let full = BucketUsage {
        counts: HashMap::from([(4, 3)]),
        unresolved_count: 0,
        occupancy_complete: true,
    };
    assert!(bucket_has_room(&metadata, &full, Some(4), false));
    assert!(!bucket_has_room(&metadata, &full, None, false));

    let unresolved = BucketUsage {
        counts: HashMap::new(),
        unresolved_count: 3,
        occupancy_complete: true,
    };
    assert!(bucket_has_room(&metadata, &unresolved, Some(4), false));
    assert!(!bucket_has_room(&metadata, &unresolved, None, false));
    assert!(bucket_has_room(&metadata, &unresolved, None, true));
}

#[test]
fn bucket_keys_need_a_known_capacity() {
    let key = BucketKey {
        scope: InventoryScope::Profile,
        native_id: 13,
    };
    let usage = BucketUsage {
        counts: HashMap::from([(13, 1)]),
        unresolved_count: 1,
        occupancy_complete: false,
    };
    assert!(!bucket_key_has_room(key, None, &usage));
    assert!(!bucket_key_has_room(key, Some(2), &usage));
    assert!(bucket_key_has_room(key, Some(3), &usage));
}

#[test]
fn add_tooltips_explain_the_first_blocking_reason() {
    assert_eq!(
        bucket_add_tooltip(true, false, false, false, false, false, "Helmets"),
        "Add an item to Helmets"
    );
    assert_eq!(
        bucket_add_tooltip(false, false, true, true, true, true, "Helmets"),
        "Adding items is disabled for this schema"
    );
    assert_eq!(
        bucket_add_tooltip(false, true, true, true, true, false, "Helmets"),
        "Helmets is at capacity"
    );
    assert_eq!(
        bucket_add_tooltip(false, true, true, true, true, true, "Helmets"),
        "This bucket cannot accept another item"
    );
}

#[test]
fn labels_and_keys_read_as_expected() {
    assert_eq!(item_count_label(1), "1 item");
    assert_eq!(item_count_label(0), "0 items");
    assert_eq!(item_count_label(12), "12 items");
    let identity = InventoryItemUiId {
        character_index: 1,
        instance_soid: 99,
        duplicate_ordinal: Some(2),
    };
    assert_eq!(
        inventory_item_state_key(identity),
        "character-inventory:1:99:duplicate-2"
    );
    assert_eq!(
        inventory_item_state_key(InventoryItemUiId {
            duplicate_ordinal: None,
            ..identity
        }),
        "character-inventory:1:99"
    );
}

#[test]
fn bucket_ranks_order_pages() {
    assert_eq!(profile_bucket_rank(21), 0);
    assert_eq!(profile_bucket_rank(99), 8);
    assert_eq!(character_bucket_rank(49), 16);
    assert_eq!(character_bucket_rank(30), 130);
    assert_eq!(scope_id(InventoryScope::SmallProfile), 3);
    let own = BucketKey {
        scope: InventoryScope::Character,
        native_id: 0,
    };
    let foreign = BucketKey {
        scope: InventoryScope::Profile,
        native_id: 1,
    };
    assert_eq!(page_bucket_display_rank(InventoryScope::Character, own), 0);
    assert_eq!(
        page_bucket_display_rank(InventoryScope::Character, foreign),
        10_000 + 2 * 256 + 1
    );
    let unknown = BucketKey {
        scope: InventoryScope::Unknown,
        native_id: 1,
    };
    assert_eq!(
        page_bucket_display_rank(InventoryScope::Character, unknown),
        u16::MAX
    );
}

#[test]
fn candidate_buckets_keep_the_first_of_each_bucket() {
    let a = InventoryMetadata {
        scope: InventoryScope::Character,
        native_bucket_id: 3,
        bucket_capacity: Some(10),
        ..InventoryMetadata::default()
    };
    let b = InventoryMetadata {
        bucket_capacity: Some(20),
        ..a
    };
    let c = InventoryMetadata {
        native_bucket_id: 4,
        ..a
    };
    let buckets = distinct_candidate_buckets(vec![a, b, c]);
    assert_eq!(buckets, vec![a, c]);
}

#[test]
fn changing_a_definition_resets_plugs_and_clamps_the_stack() {
    assert_eq!(
        definition_change_actions(7, 5, None),
        vec![
            InventoryItemAction::SetDefinitionHash(7),
            InventoryItemAction::SetPlugs(ItemPlugs::NativeDefaults),
        ]
    );
    assert_eq!(
        definition_change_actions(7, 5, Some(3)),
        vec![
            InventoryItemAction::SetDefinitionHash(7),
            InventoryItemAction::SetPlugs(ItemPlugs::NativeDefaults),
            InventoryItemAction::SetQuantity(3),
        ]
    );
    assert_eq!(definition_change_actions(7, 5, Some(0)).last(), Some(&InventoryItemAction::SetQuantity(1)));
    assert_eq!(definition_change_actions(7, 5, Some(u32::MAX)).len(), 2);
}

#[test]
fn equip_buttons_explain_why_they_are_disabled() {
    assert_eq!(
        equip_button_state(true, true, 2, false, "Kinetic"),
        (false, "Only a single inventory item can be equipped at a time".to_owned())
    );
    assert_eq!(
        equip_button_state(true, false, 1, false, "Kinetic"),
        (false, "This item is not valid for the Kinetic slot".to_owned())
    );
    assert_eq!(
        equip_button_state(true, true, 1, true, "Kinetic"),
        (true, "Equip in the Kinetic slot and move its current item here".to_owned())
    );
    assert_eq!(
        equip_button_state(false, true, 1, false, "Energy"),
        (false, "Equip in the empty Energy slot".to_owned())
    );
}

#[test]
fn plug_sections_show_at_most_the_plug_limit() {
    assert_eq!(plugs_section_title(3, 5, false), (5, "Plugs (5)".to_owned()));
    assert_eq!(plugs_section_title(20, 0, true), (12, "Plugs (12, native defaults)".to_owned()));
}

#[test]
fn replaced_rows_count_for_their_own_bucket_or_as_unresolved() {
    let profile = InventoryMetadata {
        scope: InventoryScope::Profile,
        native_bucket_id: 21,
        ..InventoryMetadata::default()
    };
    assert_eq!(replacement_context(Some(profile), InventoryScope::Profile), (Some(21), false));
    assert_eq!(replacement_context(Some(profile), InventoryScope::Character), (None, false));
    assert_eq!(replacement_context(None, InventoryScope::Profile), (None, true));
    assert_eq!(
        replacement_context(Some(InventoryMetadata::default()), InventoryScope::Profile),
        (None, true)
    );
}

#[test]
fn profile_quantities_and_swaps_respect_stack_sizes() {
    assert_eq!(profile_quantity_max(Some(10), 3), 10);
    assert_eq!(profile_quantity_max(Some(10), 30), 30);
    assert_eq!(profile_quantity_max(None, 3), i64::from(i32::MAX));
    assert_eq!(profile_quantity_max(Some(u32::MAX), 3), i64::from(i32::MAX));

    let metadata = InventoryMetadata {
        scope: InventoryScope::Profile,
        native_bucket_id: 21,
        max_stack_size: Some(5),
        bucket_capacity: Some(3),
        ..InventoryMetadata::default()
    };
    let usage = BucketUsage {
        counts: HashMap::from([(21, 1)]),
        unresolved_count: 0,
        occupancy_complete: true,
    };
    assert!(profile_swap_candidate(7, &metadata, 5, &usage, None, false));
    assert!(!profile_swap_candidate(7, &metadata, 6, &usage, None, false));
    assert!(!profile_swap_candidate(1 << 32, &metadata, 1, &usage, None, false));
    let unknown_stack = InventoryMetadata { max_stack_size: None, ..metadata };
    assert!(!profile_swap_candidate(7, &unknown_stack, 1, &usage, None, false));
}

#[test]
fn taking_an_open_request_keeps_the_other_searches_in_order() {
    let key = "character-inventory:0:add:1:4";
    let mut searches = vec![
        ("a".to_owned(), "one".to_owned()),
        (bucket_picker_open_request_key(key), String::new()),
        ("b".to_owned(), "two".to_owned()),
    ];
    assert!(take_bucket_picker_open_request(&mut searches, key, false));
    assert_eq!(
        searches,
        vec![("a".to_owned(), "one".to_owned()), ("b".to_owned(), "two".to_owned())]
    );
    assert!(!take_bucket_picker_open_request(&mut searches, key, false));
}
