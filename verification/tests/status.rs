use sundial::settings::SaveSizeReport;
use sundial::status::{
    clamp_selected_character, defaults_failed_status, defaults_restored_status,
    document_status, save_failed_status, save_refused_status, syntax_status, DefaultsFailure,
    DocumentEvent, SaveRefusal,
};

#[test]
fn selected_characters_stay_in_range() {
    assert_eq!(clamp_selected_character(1, 3), 1);
    assert_eq!(clamp_selected_character(2, 2), 1);
    assert_eq!(clamp_selected_character(2, 0), 0);
}

#[test]
fn document_statuses_name_unexpected_settings() {
    assert_eq!(document_status(DocumentEvent::Loaded, None), ("Ready".to_owned(), false));
    assert_eq!(
        document_status(DocumentEvent::Reloaded, Some("odd")),
        (
            "Reloaded with an unexpected setting: odd. A safety copy will be created beside settings.json before saving"
                .to_owned(),
            true
        )
    );
    assert_eq!(
        document_status(DocumentEvent::RawJsonApplied, None),
        ("Advanced JSON applied; click Save to write it".to_owned(), false)
    );
    assert_eq!(
        document_status(DocumentEvent::RawJsonApplied, Some("odd")).0,
        "Advanced JSON applied with an unexpected setting: odd. Saving will first create settings.json.bak beside the source"
    );
    assert_eq!(syntax_status(3, 7, "oops"), "JSON syntax error at line 3, column 7: oops");
}

#[test]
fn save_and_restore_failures_say_where_the_source_is() {
    assert_eq!(save_refused_status(SaveRefusal::SourceChanged, "changed"), "Not saved: changed");
    assert!(save_refused_status(SaveRefusal::SafetyCopyFailed, "disk")
        .ends_with("safety copy could not be created: disk"));
    assert_eq!(save_failed_status("write failed", None), "write failed");
    assert_eq!(
        save_failed_status("write failed", Some("s.json")),
        "write failed The untouched source is at s.json."
    );
    let size = SaveSizeReport {
        encoded_bytes: 10,
        size_limit_bytes: 65_536,
        compacted: false,
        exceeds_size_limit: false,
    };
    assert_eq!(
        defaults_restored_status(&size, "o.json", "b.json"),
        (
            "Restored the defaults bundled with the installed Project Sunrise. Original: o.json. Backup: b.json"
                .to_owned(),
            false
        )
    );
    assert_eq!(
        defaults_failed_status(DefaultsFailure::WriteFailed, "x", "s.json"),
        "Defaults not restored: x. The untouched source is at s.json"
    );
    assert_eq!(
        defaults_failed_status(DefaultsFailure::SafetyCopyFailed, "x", ""),
        "Defaults not restored because the safety copy failed: x"
    );
}
