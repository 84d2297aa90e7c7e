use sundial::equipment::{
    class_name, default_ability_values, default_subclass_name, equipment_slot_label,
    equipped_header_label, selected_attunement_index, AbilityChoice, AbilityOptions, Attunement,
};

#[test]
fn equipped_header_labels_are_page_specific() {
    assert_eq!(
        equipped_header_label("character-inventory-equipped", "Energy"),
        "Equipped"
    );
    assert_eq!(
        equipped_header_label("character-loadout-equipped", "Energy"),
        "Energy Slot"
    );
}

#[test]
fn slot_and_class_labels() {
    assert_eq!(equipment_slot_label("heavy"), "Power");
    assert_eq!(equipment_slot_label("class_item"), "Class item");
    assert_eq!(equipment_slot_label("mystery"), "mystery");
    assert_eq!(class_name(1), "Hunter");
    assert_eq!(class_name(7), "Invalid class");
    assert_eq!(default_subclass_name(2), "Dawnblade");
    assert_eq!(default_subclass_name(3), "");
}

fn choices(entries: &[u64]) -> Vec<AbilityChoice> {
    entries.iter().map(|&entry| AbilityChoice { entry }).collect()
}

fn options() -> AbilityOptions {
    AbilityOptions {
        movement: choices(&[4, 5, 6]),
        grenade: choices(&[8, 9]),
        super_ability: choices(&[10, 20]),
        melee: choices(&[11, 15, 21]),
        class_ability: Vec::new(),
        attunements: vec![
            Attunement {
                melee: AbilityChoice { entry: 11 },
                super_abilities: choices(&[10]),
                perks: Vec::new(),
            },
            Attunement {
                melee: AbilityChoice { entry: 21 },
                super_abilities: choices(&[20]),
                perks: Vec::new(),
            },
            Attunement {
                melee: AbilityChoice { entry: 15 },
                super_abilities: choices(&[10]),
                perks: choices(&[30]),
            },
        ],
    }
}

#[test]
fn new_subclasses_start_with_offered_defaults() {
    let abilities = options();
    assert_eq!(default_ability_values(0, &abilities, Some(3)), (6, 8, 10, 11, 2));
    assert_eq!(default_ability_values(0, &abilities, Some(2)), (5, 8, 10, 11, 2));
    assert_eq!(default_ability_values(1, &abilities, None), (6, 8, 10, 11, 2));
    assert_eq!(default_ability_values(9, &abilities, None), (4, 8, 10, 11, 2));
}

#[test]
fn attunement_follows_super_and_melee() {
    let abilities = options();
    assert_eq!(selected_attunement_index(&abilities, 10, 15), 2);
    assert_eq!(selected_attunement_index(&abilities, 20, 11), 1);
    assert_eq!(selected_attunement_index(&abilities, 30, 99), 2);
    assert_eq!(selected_attunement_index(&abilities, 10, 21), 1);
    assert_eq!(selected_attunement_index(&abilities, 99, 99), 0);
}
