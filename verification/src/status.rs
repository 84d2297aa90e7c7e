//! The editor's status line after loading, applying and saving a document, and the character
//! tab that stays selected when the document changes.
use vstd::prelude::*;
use crate::settings::{size_note_text, settings_size_note, SaveSizeReport};
use crate::text::{decimal, owned, push_decimal, push_str};

verus! {

/// The selected character tab after the document changed: the same one, or the last one when
/// fewer characters remain (the first when none do).
pub open spec fn spec_clamped_selection(selected: usize, count: usize) -> usize {
    let last: usize = if count == 0 {
        0
    } else {
        (count - 1) as usize
    };
    if selected < last {
        selected
    } else {
        last
    }
}

pub fn clamp_selected_character(selected: usize, count: usize) -> (r: usize)
    ensures
        r == spec_clamped_selection(selected, count),
{
    let last = count.saturating_sub(1);
    if selected < last {
        selected
    } else {
        last
    }
}

/// How a document came into the editor.
#[derive(Clone, Copy, Debug, PartialEq, Eq, Structural)]
pub enum DocumentEvent {
    /// Opened when Sundial started.
    Loaded,
    /// Read again from settings.json.
    Reloaded,
    /// Taken from the raw JSON editor.
    RawJsonApplied,
}

/// The status after a document came in, and whether it is shown as an error: an unexpected
/// setting is named, with what saving will do about it; otherwise the event is reported.
pub open spec fn document_status_text(event: DocumentEvent, warning: Option<Seq<char>>) -> (Seq<char>, bool) {
    match warning {
        Some(w) => (
            match event {
                DocumentEvent::Loaded => "Loaded with an unexpected setting: "@ + w
                    + ". A safety copy will be created beside settings.json before saving"@,
                DocumentEvent::Reloaded => "Reloaded with an unexpected setting: "@ + w
                    + ". A safety copy will be created beside settings.json before saving"@,
                DocumentEvent::RawJsonApplied => "Advanced JSON applied with an unexpected setting: "@ + w
                    + ". Saving will first create settings.json.bak beside the source"@,
            },
            true,
        ),
        None => (
            match event {
                DocumentEvent::Loaded => "Ready"@,
                DocumentEvent::Reloaded => "Reloaded settings.json"@,
                DocumentEvent::RawJsonApplied => "Advanced JSON applied; click Save to write it"@,
            },
            false,
        ),
    }
}

pub fn document_status(event: DocumentEvent, warning: Option<&str>) -> (status: (String, bool))
    ensures
        (status.0@, status.1) == document_status_text(
            event,
            match warning {
                Some(w) => Some(w@),
                None => None,
            },
        ),
{
    match warning {
        Some(w) => {
            let mut t = match event {
                DocumentEvent::Loaded => owned("Loaded with an unexpected setting: "),
                DocumentEvent::Reloaded => owned("Reloaded with an unexpected setting: "),
                DocumentEvent::RawJsonApplied => owned("Advanced JSON applied with an unexpected setting: "),
            };
            push_str(&mut t, w);
            match event {
                DocumentEvent::RawJsonApplied => push_str(&mut t, ". Saving will first create settings.json.bak beside the source"),
                _ => push_str(&mut t, ". A safety copy will be created beside settings.json before saving"),
            }
            (t, true)
        },
        None => (
            match event {
                DocumentEvent::Loaded => owned("Ready"),
                DocumentEvent::Reloaded => owned("Reloaded settings.json"),
                DocumentEvent::RawJsonApplied => owned("Advanced JSON applied; click Save to write it"),
            },
            false,
        ),
    }
}

/// The status when the raw JSON editor's text is not valid JSON.
pub open spec fn syntax_status_text(line: usize, column: usize, error: Seq<char>) -> Seq<char> {
    "JSON syntax error at line "@ + decimal(line as nat) + ", column "@ + decimal(column as nat) + ": "@ + error
}

pub fn syntax_status(line: usize, column: usize, error: &str) -> (status: String)
    ensures
        status@ == syntax_status_text(line, column, error@),
{
    let mut t = owned("JSON syntax error at line ");
    push_decimal(&mut t, line as u64);
    push_str(&mut t, ", column ");
    push_decimal(&mut t, column as u64);
    push_str(&mut t, ": ");
    push_str(&mut t, error);
    t
}

/// Why a save stopped before writing anything.
#[derive(Clone, Copy, Debug, PartialEq, Eq, Structural)]
pub enum SaveRefusal {
    /// settings.json changed on disk since it was read.
    SourceChanged,
    /// An unexpected setting was detected and its safety copy could not be made.
    SafetyCopyFailed,
}

pub open spec fn save_refused_text(reason: SaveRefusal, error: Seq<char>) -> Seq<char> {
    match reason {
        SaveRefusal::SourceChanged => "Not saved: "@ + error,
        SaveRefusal::SafetyCopyFailed => "Not saved: the file contains an unexpected setting and its safety copy could not be created: "@
            + error,
    }
}

pub fn save_refused_status(reason: SaveRefusal, error: &str) -> (status: String)
    ensures
        status@ == save_refused_text(reason, error@),
{
    let mut t = match reason {
        SaveRefusal::SourceChanged => owned("Not saved: "),
        SaveRefusal::SafetyCopyFailed => owned(
            "Not saved: the file contains an unexpected setting and its safety copy could not be created: ",
        ),
    };
    push_str(&mut t, error);
    t
}

/// The status when writing the file failed: the error, and where the untouched source was
/// copied when a safety copy was made.
pub open spec fn save_failed_text(error: Seq<char>, safety_copy: Option<Seq<char>>) -> Seq<char> {
    match safety_copy {
        Some(p) => error + " The untouched source is at "@ + p + "."@,
        None => error,
    }
}

pub fn save_failed_status(error: &str, safety_copy: Option<&str>) -> (status: String)
    ensures
        status@ == save_failed_text(
            error@,
            match safety_copy {
                Some(p) => Some(p@),
                None => None,
            },
        ),
{
    let mut t = owned(error);
    if let Some(p) = safety_copy {
        push_str(&mut t, " The untouched source is at ");
        push_str(&mut t, p);
        push_str(&mut t, ".");
    }
    t
}

/// The status after restoring the installed Sunrise defaults, and whether it is shown as an
/// error (when the written file is still above the size limit).
pub open spec fn defaults_restored_text(size: SaveSizeReport, original: Seq<char>, backup: Seq<char>) -> Seq<char> {
    "Restored the defaults bundled with the installed Project Sunrise."@ + size_note_text(size) + " Original: "@
        + original + ". Backup: "@ + backup
}

pub fn defaults_restored_status(size: &SaveSizeReport, original: &str, backup: &str) -> (status: (String, bool))
    ensures
        status.0@ == defaults_restored_text(*size, original@, backup@),
        status.1 == size.exceeds_size_limit,
{
    let mut t = owned("Restored the defaults bundled with the installed Project Sunrise.");
    let note = settings_size_note(size);
    push_str(&mut t, note.as_str());
    push_str(&mut t, " Original: ");
    push_str(&mut t, original);
    push_str(&mut t, ". Backup: ");
    push_str(&mut t, backup);
    (t, size.exceeds_size_limit)
}

/// Why restoring the defaults failed: settings.json changed on disk, the safety copy failed,
/// or writing failed after the safety copy was made.
#[derive(Clone, Copy, Debug, PartialEq, Eq, Structural)]
pub enum DefaultsFailure {
    SourceChanged,
    SafetyCopyFailed,
    WriteFailed,
}

pub open spec fn defaults_failed_text(failure: DefaultsFailure, error: Seq<char>, safety_copy: Seq<char>) -> Seq<char> {
    match failure {
        DefaultsFailure::SourceChanged => "Defaults not restored: "@ + error,
        DefaultsFailure::SafetyCopyFailed => "Defaults not restored because the safety copy failed: "@ + error,
        DefaultsFailure::WriteFailed => "Defaults not restored: "@ + error + ". The untouched source is at "@ + safety_copy,
    }
}

pub fn defaults_failed_status(failure: DefaultsFailure, error: &str, safety_copy: &str) -> (status: String)
    ensures
        status@ == defaults_failed_text(failure, error@, safety_copy@),
{
    match failure {
        DefaultsFailure::SourceChanged => {
            let mut t = owned("Defaults not restored: ");
            push_str(&mut t, error);
            t
        },
        DefaultsFailure::SafetyCopyFailed => {
            let mut t = owned("Defaults not restored because the safety copy failed: ");
            push_str(&mut t, error);
            t
        },
        DefaultsFailure::WriteFailed => {
            let mut t = owned("Defaults not restored: ");
            push_str(&mut t, error);
            push_str(&mut t, ". The untouched source is at ");
            push_str(&mut t, safety_copy);
            t
        },
    }
}

} // verus!
