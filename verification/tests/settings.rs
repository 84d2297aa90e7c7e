use sundial::encode::PreparedSettings;
use sundial::settings::{
    check_summary,
    default_show_safety_warnings, has_pending_edits, normalize_sunrise_version, repair_note,
    resolve_settings_path, missing_settings_message, ambiguous_settings_message,
    saved_status,
    settings_size_label, settings_size_limit_for_schema, settings_size_note,
    shadowkeep_subclass_rules, SaveSizeReport, SettingsLayout, SettingsPathResolution,
};

#[test]
fn sunrise_versions_drop_trailing_zero_components() {
    assert_eq!(normalize_sunrise_version("1.2.0.0").as_deref(), Some("1.2"));
    assert_eq!(normalize_sunrise_version("  3.0.1.0 ").as_deref(), Some("3.0.1"));
    assert_eq!(normalize_sunrise_version("0.0").as_deref(), Some("0.0"));
    assert_eq!(normalize_sunrise_version("+1.02").as_deref(), Some("1.2"));
    assert_eq!(normalize_sunrise_version("1"), None);
    assert_eq!(normalize_sunrise_version("1.a"), None);
    assert_eq!(normalize_sunrise_version("1..2"), None);
    assert_eq!(normalize_sunrise_version("1.2.3.4.5"), None);
    assert_eq!(normalize_sunrise_version("18446744073709551616.1"), None);
}

#[test]
fn size_limits_follow_the_schema() {
    assert_eq!(settings_size_limit_for_schema(None), 64 * 1024);
    assert_eq!(settings_size_limit_for_schema(Some(3)), 64 * 1024);
    assert_eq!(settings_size_limit_for_schema(Some(5)), 128 * 1024);
    assert_eq!(settings_size_limit_for_schema(Some(6)), 1024 * 1024);
    assert_eq!(settings_size_limit_for_schema(Some(u64::MAX)), 1024 * 1024);
    assert_eq!(settings_size_label(64 * 1024), "64 KiB");
    assert_eq!(settings_size_label(1024 * 1024), "1 MiB");
}

#[test]
fn size_notes_explain_compaction() {
    let plain = SaveSizeReport {
        encoded_bytes: 10,
        size_limit_bytes: 65_536,
        compacted: false,
        exceeds_size_limit: false,
    };
    assert_eq!(settings_size_note(&plain), "");
    let compacted = SaveSizeReport {
        compacted: true,
        encoded_bytes: 60_000,
        ..plain
    };
    assert_eq!(
        settings_size_note(&compacted),
        " Sunrise-style formatting exceeded this schema's 64 KiB limit, so Sundial compacted the file to 60000 bytes."
    );
    let over = SaveSizeReport {
        exceeds_size_limit: true,
        compacted: true,
        encoded_bytes: 70_000,
        ..plain
    };
    assert_eq!(
        settings_size_note(&over),
        " Warning: the compacted file is 70000 bytes, above this Sunrise schema's 64 KiB settings limit, and may not load."
    );
}

#[test]
fn layouts_round_trip_through_preferences() {
    for layout in [SettingsLayout::Root, SettingsLayout::BinX64] {
        assert_eq!(
            SettingsLayout::from_preference(layout.preference_value()),
            Some(layout)
        );
    }
    assert_eq!(SettingsLayout::from_preference("other"), None);
    assert_eq!(SettingsLayout::Root.relative_path(), r"Sunrise\settings.json");
    assert_eq!(
        SettingsLayout::BinX64.relative_path(),
        r"bin\x64\Sunrise\settings.json"
    );
    assert!(default_show_safety_warnings());
    assert!(has_pending_edits(false, true));
    assert!(!has_pending_edits(false, false));
}

#[test]
fn shadowkeep_subclasses_know_their_middle_super() {
    assert_eq!(shadowkeep_subclass_rules(0x4F91_DC97), Some(("Arcstrider", 10)));
    assert_eq!(shadowkeep_subclass_rules(0xE7BC_88B0), Some(("Voidwalker", 20)));
    assert_eq!(shadowkeep_subclass_rules(1), None);
}

#[test]
fn repair_notes_count_corrected_pairings() {
    assert_eq!(repair_note(0), "");
    assert_eq!(repair_note(1), " Corrected one invalid ability pairing.");
    assert_eq!(repair_note(3), " Corrected 3 invalid ability pairings.");
}

#[test]
fn save_status_names_the_safety_copy_after_an_unexpected_setting() {
    let plain = SaveSizeReport {
        encoded_bytes: 10,
        size_limit_bytes: 65_536,
        compacted: false,
        exceeds_size_limit: false,
    };
    assert_eq!(
        saved_status(0, &plain, None, None, "b.json"),
        ("Saved. Backup: b.json".to_owned(), false)
    );
    assert_eq!(
        saved_status(2, &plain, Some("odd"), Some("s.json"), "b.json"),
        (
            "Saved after detecting an unexpected setting (odd). Corrected 2 invalid ability pairings. The untouched source is at s.json. Backup: b.json"
                .to_owned(),
            true
        )
    );
    let over = SaveSizeReport {
        encoded_bytes: 70_000,
        size_limit_bytes: 65_536,
        compacted: true,
        exceeds_size_limit: true,
    };
    let (text, error) = saved_status(0, &over, Some("odd"), None, "b.json");
    assert!(error);
    assert!(text.starts_with("Saved. Warning: the compacted file is 70000 bytes"));
}

#[test]
fn check_summaries_report_size_notes() {
    let prepared = PreparedSettings {
        encoded: String::new(),
        encoded_bytes: 1234,
        size_limit_bytes: 65_536,
        compacted: false,
        exceeds_size_limit: false,
    };
    assert_eq!(
        check_summary(6, "1.2", 3, 0, &prepared),
        "Valid: settings schema 6, detected Project Sunrise 1.2, 3 characters, 0 compatible local catalog items loaded, save size 1234 bytes"
    );
    let compacted = PreparedSettings {
        encoded: String::new(),
        encoded_bytes: 1234,
        size_limit_bytes: 65_536,
        compacted: true,
        exceeds_size_limit: false,
    };
    assert!(check_summary(6, "1.2", 3, 0, &compacted)
        .ends_with("save size 1234 bytes (compacted from Sunrise's readable layout)"));
    let over = PreparedSettings { compacted: true, exceeds_size_limit: true, ..prepared };
    assert!(check_summary(2, "Not detected", 1, 5, &over)
        .ends_with("(warning: still above 64 KiB after compaction)"));
}

#[test]
fn normalising_a_normalised_version_changes_nothing() {
    for version in ["1.2.0.0", " 01.2 ", "1.0.3.0", "+7.08.9.10", "0.0"] {
        let once = normalize_sunrise_version(version).unwrap();
        assert_eq!(normalize_sunrise_version(&once).as_deref(), Some(once.as_str()));
    }
}

#[test]
fn the_preferred_settings_file_wins_when_it_exists() {
    let root = Some(SettingsLayout::Root);
    let bin = Some(SettingsLayout::BinX64);
    assert_eq!(resolve_settings_path(root, true, true), SettingsPathResolution::Found(SettingsLayout::Root));
    assert_eq!(resolve_settings_path(bin, true, true), SettingsPathResolution::Found(SettingsLayout::BinX64));
    assert_eq!(resolve_settings_path(None, true, true), SettingsPathResolution::Ambiguous);
    assert_eq!(resolve_settings_path(root, false, true), SettingsPathResolution::Found(SettingsLayout::BinX64));
    assert_eq!(resolve_settings_path(bin, true, false), SettingsPathResolution::Found(SettingsLayout::Root));
    assert_eq!(resolve_settings_path(None, false, true), SettingsPathResolution::Found(SettingsLayout::BinX64));
    assert_eq!(resolve_settings_path(bin, false, false), SettingsPathResolution::Missing);
}

#[test]
fn settings_file_messages_name_the_places_looked_in() {
    assert_eq!(
        missing_settings_message("D:\\Game\\Sunrise\\settings.json", "D:\\Game\\bin\\x64\\Sunrise\\settings.json"),
        "No Project Sunrise settings.json was found in the selected installation. Checked D:\\Game\\Sunrise\\settings.json and D:\\Game\\bin\\x64\\Sunrise\\settings.json. Choose the Destiny 2 Shadowkeep folder containing destiny2.exe and confirm Project Sunrise is installed there"
    );
    assert_eq!(
        ambiguous_settings_message(),
        "Two Sunrise settings.json files were found; open Sundial and choose which one Project Sunrise uses"
    );
}
