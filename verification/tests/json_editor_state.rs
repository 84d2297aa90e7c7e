use sundial::json_editor::{
    apply_edit_outcome, collapse_possible, find_step, fold_all, forget_missing_folds,
    match_counter_label, toggle_fold, JsonEditorState,
};
use sundial::json_text::{
    character_to_byte, fold_regions, line_column, line_column_at_byte, FoldProjection,
    ProjectionEditError,
};

fn sorted(mut ids: Vec<Vec<usize>>) -> Vec<Vec<usize>> {
    ids.sort();
    ids.dedup();
    ids
}

#[test]
fn the_find_bar_starts_at_the_first_match_and_wraps() {
    assert_eq!(find_step(Some(2), 0, false, false, true), (None, false));
    assert_eq!(find_step(None, 3, false, false, false), (Some(0), true));
    assert_eq!(find_step(Some(1), 3, true, false, false), (Some(0), true));
    assert_eq!(find_step(Some(5), 3, false, false, false), (Some(0), true));
    assert_eq!(find_step(Some(1), 3, false, false, false), (Some(1), false));
    assert_eq!(find_step(Some(2), 3, false, false, true), (Some(0), true));
    assert_eq!(find_step(Some(0), 3, false, true, false), (Some(2), true));
    assert_eq!(find_step(Some(1), 3, false, true, true), (Some(0), true));
    assert_eq!(match_counter_label(Some(1), 3, false).as_deref(), Some("2 of 3"));
    assert_eq!(match_counter_label(None, 0, false).as_deref(), Some("No matches"));
    assert_eq!(match_counter_label(None, 0, true), None);
}

#[test]
fn folding_all_toggling_and_forgetting_sections() {
    let text = "{\n  \"a\": [\n    1\n  ],\n  \"b\": {\n    \"c\": 2\n  }\n}";
    let regions = fold_regions(text);
    assert!(regions.len() >= 2);
    let mut folded: Vec<Vec<usize>> = Vec::new();
    assert!(collapse_possible(&regions, &folded));
    fold_all(&mut folded, &regions);
    assert!(!collapse_possible(&regions, &folded));
    let all = sorted(regions.iter().map(|r| r.id.clone()).collect());
    assert_eq!(sorted(folded.clone()), all);

    let first = regions[0].id.clone();
    toggle_fold(&mut folded, &first);
    assert!(!folded.contains(&first));
    toggle_fold(&mut folded, &first);
    assert_eq!(sorted(folded.clone()), all);

    folded.push(vec![99, 99]);
    forget_missing_folds(&mut folded, &regions);
    assert_eq!(sorted(folded), all);
}

#[test]
fn edit_outcomes_mark_changes_or_unfold() {
    let mut state = JsonEditorState::new();
    assert!(!state.has_unapplied_changes());
    state.folded = vec![vec![0], vec![1]];
    assert!(!apply_edit_outcome(&mut state, &Err(ProjectionEditError::Hidden(vec![0]))));
    assert_eq!(state.folded, vec![vec![1]]);
    assert!(!state.modified);
    assert!(apply_edit_outcome(&mut state, &Ok(())));
    assert!(state.has_unapplied_changes());
    assert!(!apply_edit_outcome(&mut state, &Err(ProjectionEditError::InvalidMapping)));
    assert!(state.folded.is_empty());
    state.reset_pending = true;
    state.mark_synced();
    assert!(!state.modified && !state.reset_pending);
}

#[test]
fn an_unfolded_view_is_the_document_itself() {
    let text = "{\n  \"a\": [\n    \"\u{e9}\"\n  ]\n}";
    let regions = fold_regions(text);
    let projection = FoldProjection::new(text, &regions, &[]);
    assert_eq!(projection.text(), text);
    assert!(projection.placeholders().is_empty());
    for position in [0, 1, 5, text.len()] {
        assert_eq!(projection.display_to_source(position), Some(position));
        assert_eq!(projection.source_to_display(position), Some(position));
    }
    assert_eq!(projection.source_range_to_display(2..6), Some((2, 6)));
    assert_eq!(projection.source_range_to_display(6..2), Some((6, 2)));
}

#[test]
fn byte_and_character_positions_name_the_same_place() {
    let text = "{\n  \"\u{e9}t\u{e9}\": 1\n}";
    for i in 0..=text.chars().count() {
        let byte = character_to_byte(text, i).unwrap();
        assert_eq!(line_column_at_byte(text, byte), line_column(text, i));
    }
}
