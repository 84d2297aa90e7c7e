use sundial::item_editor::{
    authored_item_level, definition_picker_rows, displayed_item_power, item_power_input_range,
    picker_secondary_text, single_line_text, DefinitionChoice, DefinitionPickerRow,
    NativePlugDefault, MAXIMUM_POWERED_ITEM_POWER, MINIMUM_POWERED_ITEM_POWER,
};

#[test]
fn authored_levels_display_as_in_game_power() {
    assert_eq!(displayed_item_power(0), 0);
    assert_eq!(displayed_item_power(1), 750);
    assert_eq!(displayed_item_power(74), 750);
    assert_eq!(displayed_item_power(75), 750);
    assert_eq!(displayed_item_power(106), 1_060);
    assert_eq!(
        displayed_item_power(i64::from(i32::MAX)),
        i64::from(i32::MAX) * 10
    );
}

#[test]
fn entered_power_snaps_down_and_converts_to_authored_level() {
    assert_eq!(authored_item_level(-1), None);
    assert_eq!(authored_item_level(0), Some(0));
    assert_eq!(authored_item_level(1), Some(75));
    assert_eq!(authored_item_level(749), Some(75));
    assert_eq!(authored_item_level(750), Some(75));
    assert_eq!(authored_item_level(759), Some(75));
    assert_eq!(authored_item_level(760), Some(76));
    assert_eq!(authored_item_level(1_060), Some(106));
}

#[test]
fn power_input_range_keeps_unpowered_items_editable() {
    let range = item_power_input_range();
    assert!(range.contains(&0));
    assert!(range.contains(&MINIMUM_POWERED_ITEM_POWER));
    assert!(range.contains(&MAXIMUM_POWERED_ITEM_POWER));
    assert!(!range.contains(&-1));
    assert!(!range.contains(&(MAXIMUM_POWERED_ITEM_POWER + 1)));
}

#[test]
fn picker_secondary_text_is_compact_and_single_line() {
    assert_eq!(
        single_line_text("First line\n  second\tline"),
        "First line second line"
    );
    assert_eq!(
        picker_secondary_text("Trait", "A short description"),
        "Trait · A short description"
    );
    assert_eq!(
        picker_secondary_text("", "A short description"),
        "A short description"
    );
}

#[test]
fn definition_picker_omits_a_redundant_single_group_heading() {
    let definitions = [
        DefinitionChoice {
            hash: 1,
            name: "First".into(),
            item_type: "Pulse Rifle".into(),
            group: Some("Kinetic weapons".into()),
        },
        DefinitionChoice {
            hash: 2,
            name: "Second".into(),
            item_type: "Hand Cannon".into(),
            group: Some("Kinetic weapons".into()),
        },
    ];

    assert_eq!(
        definition_picker_rows(&definitions),
        vec![
            DefinitionPickerRow::Definition(&definitions[0]),
            DefinitionPickerRow::Definition(&definitions[1]),
        ]
    );

    let mut multiple_groups = definitions.to_vec();
    multiple_groups[1].group = Some("Energy weapons".into());
    assert!(matches!(
        definition_picker_rows(&multiple_groups).first(),
        Some(DefinitionPickerRow::Group("Kinetic weapons"))
    ));
}

#[test]
fn picker_headings_start_each_run_of_a_group() {
    let choice = |hash, group: Option<&str>| DefinitionChoice {
        hash,
        name: format!("Item {hash}"),
        item_type: "Weapon".into(),
        group: group.map(str::to_owned),
    };
    let definitions = vec![
        choice(1, Some("A")),
        choice(2, Some("A")),
        choice(3, None),
        choice(4, Some("B")),
    ];
    let rows = definition_picker_rows(&definitions);
    assert_eq!(
        rows,
        vec![
            DefinitionPickerRow::Group("A"),
            DefinitionPickerRow::Definition(&definitions[0]),
            DefinitionPickerRow::Definition(&definitions[1]),
            DefinitionPickerRow::Definition(&definitions[2]),
            DefinitionPickerRow::Group("B"),
            DefinitionPickerRow::Definition(&definitions[3]),
        ]
    );
}

#[test]
fn trimming_and_whitespace_follow_unicode_rules() {
    assert_eq!(single_line_text("  \u{a0}a\u{2003}b  "), "a b");
    assert_eq!(single_line_text(""), "");
    assert_eq!(picker_secondary_text("  Trait  ", "   "), "Trait");
    assert_eq!(picker_secondary_text(" ", " "), "");
}

#[test]
fn displayed_power_saturates_and_level_rounds_down() {
    assert_eq!(displayed_item_power(-5), 0);
    assert_eq!(displayed_item_power(i64::MAX), i64::MAX);
    assert_eq!(authored_item_level(i64::MAX), Some(i64::MAX / 10));
}

#[test]
fn native_plug_default_value_reports_the_plug() {
    assert_eq!(NativePlugDefault::Plug(7).value(), Some(7));
    assert_eq!(NativePlugDefault::Empty.value(), None);
}

#[test]
fn shown_power_reads_back_and_entries_snap_down() {
    for level in [0, 75, 76, 106, 1_000] {
        assert_eq!(authored_item_level(displayed_item_power(level)), Some(level));
    }
    for power in [750, 755, 759, 1_060, 1_069] {
        let shown = displayed_item_power(authored_item_level(power).unwrap());
        assert!(shown <= power && power < shown + 10);
    }
}
