use sundial::definition_choices::{
    character_bucket_definition_choices, character_definition_choices, contains_text,
    equipment_definition_choices, profile_bucket_definition_choices, profile_definition_choices,
    InventoryDefinition, existing_inventory_choice_matches, ExistingInventoryChoice, sort_positions, SortKey};
use sundial::equipment::AbilityOptions;
use sundial::equipment_edit::ItemDefinition;
use sundial::inventory_page::{InventoryMetadata, InventoryScope, ItemStackability};

fn no_abilities() -> AbilityOptions {
    AbilityOptions {
        movement: Vec::new(),
        grenade: Vec::new(),
        super_ability: Vec::new(),
        melee: Vec::new(),
        class_ability: Vec::new(),
        attunements: Vec::new(),
    }
}

fn weapon(hash: u64, name: &str) -> ItemDefinition {
    ItemDefinition {
        hash,
        name: name.to_owned(),
        item_type: "Test weapon".into(),
        bucket_hash: 1_498_876_634,
        class_type: 3,
        default_plugs: Vec::new(),
        abilities: no_abilities(),
    }
}

fn definition(hash: u64, name: &str, item_type: &str, metadata: InventoryMetadata) -> InventoryDefinition {
    InventoryDefinition {
        hash,
        name: name.to_owned(),
        item_type: item_type.to_owned(),
        metadata,
    }
}

#[test]
fn equipment_picker_choice_assembly_keeps_more_than_five_hundred_items() {
    let items = (0_u64..620)
        .map(|index| weapon(10_000 + index, &format!("Browse item {index:04}")))
        .collect::<Vec<_>>();

    let choices = equipment_definition_choices(&items, "");
    assert_eq!(choices.len(), 620);
    assert_eq!(choices.first().unwrap().hash, 10_000);
    assert_eq!(choices.last().unwrap().hash, 10_619);
}

#[test]
fn profile_browse_keeps_all_results_across_named_buckets() {
    let modifications = InventoryMetadata {
        scope: InventoryScope::Profile,
        native_bucket_id: 13,
        stackability: ItemStackability::Stackable,
        max_stack_size: Some(1),
        bucket_capacity: Some(200),
    };
    let glimmer = InventoryMetadata {
        scope: InventoryScope::Profile,
        native_bucket_id: 21,
        stackability: ItemStackability::Stackable,
        max_stack_size: Some(999_999),
        bucket_capacity: Some(1),
    };
    let mut definitions = (0_u64..120)
        .map(|hash| definition(hash, "Alphabetical modification", "Modification", modifications))
        .collect::<Vec<_>>();
    definitions.push(definition(1_000, "Glimmer", "Currency", glimmer));

    let choices = profile_definition_choices(&definitions);
    assert_eq!(choices.len(), 121);
    assert!(choices.iter().any(|choice| choice.group.as_deref() == Some("Glimmer")));
}

#[test]
fn character_browse_keeps_all_results_and_orders_native_buckets() {
    let metadata = |native_bucket_id| InventoryMetadata {
        scope: InventoryScope::Character,
        native_bucket_id,
        stackability: ItemStackability::Instanced,
        max_stack_size: Some(1),
        bucket_capacity: Some(200),
    };
    let kinetic = metadata(0);
    let chest = metadata(5);
    let artifact = metadata(49);
    let mut definitions = (0_u64..120)
        .map(|hash| definition(hash, "Chest item", "Chest armor", chest))
        .collect::<Vec<_>>();
    definitions.push(definition(1_000, "Kinetic item", "Kinetic weapon", kinetic));
    definitions.push(definition(1_001, "Artifact item", "Seasonal artifact", artifact));

    let choices = character_definition_choices(&definitions);
    assert_eq!(choices.len(), 122);
    let group_position = |group| {
        choices
            .iter()
            .position(|choice| choice.group.as_deref() == Some(group))
            .unwrap()
    };
    assert!(group_position("Kinetic weapons") < group_position("Chest armor"));
    assert!(group_position("Chest armor") < group_position("Seasonal artifacts"));
}

#[test]
fn profile_choices_put_currencies_and_large_stacks_first() {
    let bucket = InventoryMetadata {
        scope: InventoryScope::Profile,
        native_bucket_id: 42,
        stackability: ItemStackability::Stackable,
        max_stack_size: Some(1),
        bucket_capacity: None,
    };
    let big = InventoryMetadata { max_stack_size: Some(50), ..bucket };
    let definitions = vec![
        definition(3, "Zeta trinket", "Trinket", bucket),
        definition(2, "Alpha trinket", "Trinket", bucket),
        definition(4, "Beta trinket", "Trinket", big),
        definition(1, "Omega", "Material", bucket),
    ];
    let sorted = profile_bucket_definition_choices(&definitions);
    assert_eq!(sorted.iter().map(|c| c.hash).collect::<Vec<_>>(), [1, 4, 2, 3]);
    assert!(sorted.iter().all(|c| c.group.is_none()));

    let grouped = profile_definition_choices(&definitions);
    assert_eq!(grouped.iter().map(|c| c.hash).collect::<Vec<_>>(), [1, 4, 2, 3]);
    assert!(grouped.iter().all(|c| c.group.as_deref() == Some("General profile items")));
}

#[test]
fn character_choices_sort_by_lowercase_name_then_hash() {
    let bucket = InventoryMetadata {
        scope: InventoryScope::Character,
        native_bucket_id: 3,
        stackability: ItemStackability::Instanced,
        max_stack_size: Some(1),
        bucket_capacity: Some(9),
    };
    let definitions = vec![
        definition(9, "beta", "Helmet", bucket),
        definition(8, "Alpha", "Helmet", bucket),
        definition(7, "beta", "Helmet", bucket),
    ];
    let sorted = character_bucket_definition_choices(&definitions);
    assert_eq!(sorted.iter().map(|c| c.hash).collect::<Vec<_>>(), [8, 7, 9]);
}

#[test]
fn equipment_search_matches_names_and_hashes_case_insensitively() {
    let items = vec![weapon(0x2A, "Ace of Spades"), weapon(7, "Thorn")];
    let by_name = equipment_definition_choices(&items, "ACE");
    assert_eq!(by_name.iter().map(|c| c.hash).collect::<Vec<_>>(), [0x2A]);
    let by_hash = equipment_definition_choices(&items, "0x00000007");
    assert_eq!(by_hash.iter().map(|c| c.hash).collect::<Vec<_>>(), [7]);
    assert_eq!(equipment_definition_choices(&items, "   ").len(), 2);
    assert!(equipment_definition_choices(&items, "zzz").is_empty());
    assert!(contains_text("bright dust", "dust"));
    assert!(!contains_text("dust", "bright dust"));
}

#[test]
fn stored_equipment_choices_match_name_type_hash_or_description() {
    let choice = ExistingInventoryChoice {
        item_index: 2,
        hash: 0xAB,
        name: "Ace of Spades".to_owned(),
        item_type: "Hand Cannon".to_owned(),
    };
    assert!(existing_inventory_choice_matches(&choice, None, "   "));
    assert!(existing_inventory_choice_matches(&choice, None, " ACE "));
    assert!(existing_inventory_choice_matches(&choice, None, "cannon"));
    assert!(existing_inventory_choice_matches(&choice, None, "0x000000ab"));
    assert!(!existing_inventory_choice_matches(&choice, None, "memento"));
    assert!(existing_inventory_choice_matches(&choice, Some("Memento Mori"), "memento"));
}

#[test]
fn sorting_positions_orders_by_key_and_keeps_ties_in_place() {
    let key = |major: u64, text: &str, last: u64| SortKey { major, minor: 0, text: text.to_owned(), last };
    let keys = vec![key(2, "b", 0), key(1, "z", 0), key(2, "a", 5), key(1, "z", 0), key(0, "", 9)];
    let order = sort_positions(&keys);
    assert_eq!(order, vec![4, 1, 3, 2, 0]);
    let mut seen = order.clone();
    seen.sort();
    assert_eq!(seen, vec![0, 1, 2, 3, 4]);
}
