use sundial::inventory::{
    equipment_edit_refusal, equipment_flags_edit_refusal,
    format_definition_hash, format_instance_soid, inventory_item_path,
    inventory_masterwork_feature_present, profile_item_capacity, read_only_schema_error,
    schema_mode_for_version, set_inventory_locked_flag, set_inventory_masterwork_flag,
    validate_inventory_action, validate_plug_snapshot, InventoryError, InventoryItemAction,
    InventoryItemLocation, ItemPlugs, NewInventoryItem, SchemaMode, INVENTORY_FLAG_LOCKED,
    INVENTORY_FLAG_MASK, INVENTORY_FLAG_MASTERWORK, INVENTORY_FLAG_TRACKED,
};

#[test]
fn item_state_edits_preserve_unrelated_flags() {
    assert!(!inventory_masterwork_feature_present(None));
    assert!(!inventory_masterwork_feature_present(Some(
        INVENTORY_FLAG_LOCKED
    )));
    assert!(inventory_masterwork_feature_present(Some(
        INVENTORY_FLAG_MASTERWORK
    )));
    assert_eq!(
        set_inventory_locked_flag(None, true),
        Some(INVENTORY_FLAG_LOCKED)
    );
    assert_eq!(
        set_inventory_locked_flag(Some(INVENTORY_FLAG_LOCKED), false),
        None
    );
    assert_eq!(
        set_inventory_locked_flag(Some(INVENTORY_FLAG_TRACKED), true),
        Some(INVENTORY_FLAG_LOCKED | INVENTORY_FLAG_TRACKED)
    );
    assert_eq!(
        set_inventory_locked_flag(Some(INVENTORY_FLAG_MASK), false),
        Some(INVENTORY_FLAG_TRACKED | INVENTORY_FLAG_MASTERWORK)
    );
    assert_eq!(
        set_inventory_masterwork_flag(Some(INVENTORY_FLAG_LOCKED), true),
        Some(INVENTORY_FLAG_LOCKED | INVENTORY_FLAG_MASTERWORK)
    );
    assert_eq!(
        set_inventory_masterwork_flag(Some(INVENTORY_FLAG_MASK), false),
        Some(INVENTORY_FLAG_LOCKED | INVENTORY_FLAG_TRACKED)
    );
    assert_eq!(
        set_inventory_masterwork_flag(None, true),
        Some(INVENTORY_FLAG_MASTERWORK)
    );
}

#[test]
fn schema_versions_map_to_modes() {
    assert_eq!(schema_mode_for_version(None), SchemaMode::MissingOrInvalid);
    assert_eq!(schema_mode_for_version(Some(1)), SchemaMode::Unsupported(1));
    assert_eq!(schema_mode_for_version(Some(3)), SchemaMode::PreInventory(3));
    assert_eq!(schema_mode_for_version(Some(6)), SchemaMode::InventoryV6);
    assert_eq!(schema_mode_for_version(Some(7)), SchemaMode::Future(7));
    assert!(SchemaMode::Future(7).is_read_only());
    assert!(SchemaMode::Unsupported(1).is_read_only());
    assert!(!SchemaMode::Unsupported(1).can_mutate_profile_items());
    assert!(!SchemaMode::MissingOrInvalid.can_mutate_equipment());
    assert!(!SchemaMode::Future(7).can_mutate_equipment());
    assert!(SchemaMode::Future(7).supports_equipment_flags());
    assert!(!SchemaMode::Future(7).can_mutate_equipment_flags());
    for version in 2..=5 {
        let mode = schema_mode_for_version(Some(version));
        assert!(mode.can_mutate_profile_items());
        assert!(!mode.can_mutate_character_inventory());
        assert!(mode.can_mutate_equipment());
        assert_eq!(mode.supports_equipment_flags(), version >= 4);
        assert_eq!(mode.can_mutate_equipment_flags(), version >= 4);
        assert_eq!(mode.supports_dismantle_rewards(), version >= 5);
    }
    assert!(SchemaMode::InventoryV6.can_mutate_character_inventory());
    assert!(SchemaMode::InventoryV6.supports_dismantle_rewards());
    assert_eq!(profile_item_capacity(3), 32);
    assert_eq!(profile_item_capacity(4), 701);
    assert_eq!(SchemaMode::PreInventory(3).profile_item_capacity(), Some(32));
    assert_eq!(SchemaMode::InventoryV6.profile_item_capacity(), Some(701));
    assert_eq!(SchemaMode::Future(9).profile_item_capacity(), None);
    assert!(!SchemaMode::Future(9).enforces_character_inventory_capacity());
    assert_eq!(SchemaMode::InventoryV6.version(), Some(6));
}

#[test]
fn hashes_and_paths_are_formatted_like_sunrise() {
    assert_eq!(format_definition_hash(0x2A), "0x0000002A");
    assert_eq!(format_definition_hash(0xDEAD_BEEF), "0xDEADBEEF");
    assert_eq!(format_instance_soid(0x4000_0000_0000_0001), "0x4000000000000001");
    assert_eq!(
        inventory_item_path(InventoryItemLocation {
            character_index: 2,
            item_index: 17
        }),
        "/state/characters/2/inventory/17"
    );
}

#[test]
fn requested_edits_are_checked_before_they_apply() {
    let location = InventoryItemLocation {
        character_index: 0,
        item_index: 3,
    };
    let error = validate_inventory_action(location, &InventoryItemAction::SetFlags(Some(8)))
        .unwrap_err();
    assert_eq!(error.path(), "/state/characters/0/inventory/3/flags");
    assert_eq!(error.message(), "flags must be between 0 and 7");
    assert_eq!(
        error.to_text(),
        "/state/characters/0/inventory/3/flags: flags must be between 0 and 7"
    );
    assert!(validate_inventory_action(location, &InventoryItemAction::SetFlags(Some(7))).is_ok());
    let error = validate_inventory_action(location, &InventoryItemAction::SetQuantity(0))
        .unwrap_err();
    assert_eq!(error.path(), "/state/characters/0/inventory/3/quantity");
    let error = validate_inventory_action(location, &InventoryItemAction::SetLevel(-1))
        .unwrap_err();
    assert_eq!(
        error.message(),
        "level must be a non-negative signed 32-bit integer"
    );
    let error = validate_inventory_action(
        location,
        &InventoryItemAction::SetDefinitionHash(0x811C_9DC5),
    )
    .unwrap_err();
    assert_eq!(error.path(), "/state/characters/0/inventory/3/definition_hash");
    assert!(validate_inventory_action(location, &InventoryItemAction::Remove).is_ok());
}

#[test]
fn plug_snapshots_reject_the_sentinel_and_overlong_lists() {
    assert!(validate_plug_snapshot(&ItemPlugs::NativeDefaults, "/p").is_ok());
    let error = validate_plug_snapshot(
        &ItemPlugs::Authored(vec![Some(1), None, Some(0x811C_9DC5)]),
        "/p",
    )
    .unwrap_err();
    assert_eq!(error.path(), "/p/2");
    let error = validate_plug_snapshot(&ItemPlugs::Authored(vec![None; 13]), "/p").unwrap_err();
    assert_eq!(error.path(), "/p");
    assert_eq!(error.message(), "plugs cannot contain more than 12 entries");
}

#[test]
fn read_only_errors_name_the_schema() {
    let error = read_only_schema_error(SchemaMode::Future(9), "inventory");
    assert_eq!(error.path(), "/version");
    assert_eq!(
        error.message(),
        "settings schema 9 is newer than supported schema 6; inventory is read-only"
    );
    let error = read_only_schema_error(SchemaMode::Unsupported(1), "equipment");
    assert_eq!(
        error.message(),
        "settings schema 1 predates supported schema 2; equipment is read-only"
    );
    let error = read_only_schema_error(SchemaMode::InventoryV6, "profile items");
    assert_eq!(error.message(), "profile items is read-only");
    let plain = InventoryError::new(String::new(), "broken".to_owned());
    assert_eq!(plain.to_text(), "broken");
}

#[test]
fn new_items_default_to_a_single_copy() {
    let item = NewInventoryItem::single(42, 100);
    assert_eq!(item.quantity, 1);
    assert_eq!(item.definition_hash, 42);
    assert_eq!(item.level, 100);
}

#[test]
fn equipment_editing_refusals_follow_the_schema() {
    assert_eq!(equipment_edit_refusal(SchemaMode::InventoryV6), None);
    assert_eq!(equipment_edit_refusal(SchemaMode::PreInventory(3)), None);
    assert_eq!(
        equipment_edit_refusal(SchemaMode::Future(7)).as_deref(),
        Some("Equipment editing is disabled for this settings schema")
    );
    assert_eq!(equipment_flags_edit_refusal(SchemaMode::PreInventory(4)), None);
    assert_eq!(
        equipment_flags_edit_refusal(SchemaMode::PreInventory(3)).as_deref(),
        Some("Equipment lock-state editing requires a writable settings schema 4 or newer")
    );
    assert!(equipment_flags_edit_refusal(SchemaMode::MissingOrInvalid).is_some());
}
