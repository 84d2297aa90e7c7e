use sundial::fold_edit::{common_prefix_bytes, common_suffix_bytes};
use sundial::fold_search::{projected_matches, reveal_source_range, visible_line_numbers};
use sundial::json_text::{
    find_matches, fold_regions, json_tokens, line_column, FoldProjection, JsonTokenKind,
    ProjectionEditError,
};

fn folding_example() -> String {
    r#"{
  "nested": {
    "brace": "not } or ]",
    "value": 1
  },
  "tail": 2
}"#
    .to_owned()
}

#[test]
fn json_search_is_ascii_case_insensitive_and_non_overlapping() {
    assert_eq!(
        find_matches("Plug plug PLUG", "plug"),
        vec![(0, 4), (5, 9), (10, 14)]
    );
    assert_eq!(find_matches("Plug plug", "Plug"), vec![(0, 4), (5, 9)]);
    assert!(find_matches("anything", "").is_empty());
}

#[test]
fn json_syntax_tokens_distinguish_keys_and_values() {
    let text = r#"{"name":"Sundial","count":2,"enabled":true,"missing":null}"#;
    let tokens = json_tokens(text);
    assert!(tokens.iter().any(|&(start, end, kind)| {
        kind == JsonTokenKind::Key && &text[start..end] == "\"name\""
    }));
    assert!(tokens.iter().any(|&(start, end, kind)| {
        kind == JsonTokenKind::String && &text[start..end] == "\"Sundial\""
    }));
    assert!(tokens
        .iter()
        .any(|&(_, _, kind)| kind == JsonTokenKind::Number));
    assert_eq!(
        tokens
            .iter()
            .filter(|&&(_, _, kind)| kind == JsonTokenKind::Literal)
            .count(),
        2
    );
}

#[test]
fn cursor_position_counts_unicode_characters_not_bytes() {
    assert_eq!(line_column("é\nvalue", 2), (2, 1));
    assert_eq!(line_column("é\nvalue", 5), (2, 4));
}

#[test]
fn multiline_json_sections_can_be_folded_without_parsing_braces_in_strings() {
    let source = folding_example();
    let regions = fold_regions(&source);
    assert_eq!(regions.len(), 2);
    assert_eq!(regions[0].open_line, 1);
    assert_eq!(regions[1].open_line, 2);

    let folded = vec![regions[1].id.clone()];
    let projection = FoldProjection::new(&source, &regions, &folded);
    assert!(projection.text().contains("\"nested\": { … },"));
    assert!(!projection.text().contains("\"value\": 1"));
    assert_eq!(visible_line_numbers(&source, &projection), vec![1, 2, 6, 7]);
}

#[test]
fn edits_outside_a_fold_update_the_full_source_without_losing_hidden_json() {
    let mut source = folding_example();
    let regions = fold_regions(&source);
    let folded = vec![regions[1].id.clone()];
    let mut projection = FoldProjection::new(&source, &regions, &folded);
    let before = projection.text().clone();
    let mut edited = projection.text().clone();
    let tail = edited.rfind('2').unwrap();
    edited.replace_range(tail..tail + 1, "3");
    projection.set_text(edited);

    projection.apply_edit(&mut source, &before).unwrap();
    assert!(source.contains("\"brace\": \"not } or ]\""));
    assert!(source.contains("\"value\": 1"));
    assert!(source.contains("\"tail\": 3"));
}

#[test]
fn editing_a_fold_marker_unfolds_instead_of_overwriting_hidden_json() {
    let mut source = folding_example();
    let regions = fold_regions(&source);
    let folded = vec![regions[1].id.clone()];
    let mut projection = FoldProjection::new(&source, &regions, &folded);
    let before = projection.text().clone();
    let marker = projection.placeholders()[0].display.clone();
    let mut edited = projection.text().clone();
    edited.replace_range(marker, "oops");
    projection.set_text(edited);

    assert!(matches!(
        projection.apply_edit(&mut source, &before),
        Err(ProjectionEditError::Hidden(_))
    ));
    assert_eq!(source, folding_example());
}

#[test]
fn search_counts_matches_hidden_by_folds() {
    let source = folding_example();
    let regions = fold_regions(&source);
    let folded = vec![regions[1].id.clone()];
    let projection = FoldProjection::new(&source, &regions, &folded);
    let source_matches = find_matches(&source, "value");

    assert_eq!(source_matches.len(), 1);
    assert_eq!(
        projected_matches(&projection, &source_matches, Some(0)),
        (Vec::new(), None)
    );
}

#[test]
fn selecting_a_hidden_search_match_reveals_its_section() {
    let source = folding_example();
    let regions = fold_regions(&source);
    let mut folded = vec![regions[1].id.clone()];
    let source_matches = find_matches(&source, "value");

    reveal_source_range(&mut folded, &regions, source_matches[0]);
    let projection = FoldProjection::new(&source, &regions, &folded);
    let (matches, current) = projected_matches(&projection, &source_matches, Some(0));

    assert!(folded.is_empty());
    assert_eq!(matches, source_matches);
    assert_eq!(current, Some(0));
}

#[test]
fn shared_prefix_and_suffix_count_whole_characters() {
    assert_eq!(common_prefix_bytes("é1", "é2"), 2);
    assert_eq!(common_prefix_bytes("abc", "abd"), 2);
    assert_eq!(common_prefix_bytes("", "abc"), 0);
    assert_eq!(common_suffix_bytes("xaé", "yaé", 0), 3);
    // The suffix never overlaps the shared prefix.
    assert_eq!(common_suffix_bytes("aa", "aaa", 2), 0);
    assert_eq!(common_suffix_bytes("abc", "abc", 1), 2);
}

#[test]
fn unchanged_text_leaves_the_source_alone() {
    let mut source = folding_example();
    let regions = fold_regions(&source);
    let projection = FoldProjection::new(&source, &regions, &[]);
    let before = projection.text().clone();
    assert_eq!(before, source);
    projection.apply_edit(&mut source, &before).unwrap();
    assert_eq!(source, folding_example());
}

#[test]
fn inserting_next_to_a_placeholder_keeps_hidden_text() {
    let mut source = folding_example();
    let regions = fold_regions(&source);
    let folded = vec![regions[1].id.clone()];
    let mut projection = FoldProjection::new(&source, &regions, &folded);
    let before = projection.text().clone();
    let marker = projection.placeholders()[0].display.clone();
    let mut edited = projection.text().clone();
    edited.insert_str(marker.end, "\"x\": 0,");
    projection.set_text(edited);
    projection.apply_edit(&mut source, &before).unwrap();
    assert!(source.contains("\"value\": 1\n  \"x\": 0,}"));
}

#[test]
fn revealing_keeps_sections_away_from_the_range() {
    let source = folding_example();
    let regions = fold_regions(&source);
    let mut folded = vec![regions[1].id.clone(), vec![99]];
    let far = source.rfind("tail").unwrap();
    reveal_source_range(&mut folded, &regions, (far, far + 4));
    assert_eq!(folded, vec![regions[1].id.clone()]);
}

#[test]
fn shown_source_positions_map_to_the_view_and_back() {
    let source = folding_example();
    let regions = fold_regions(&source);
    let folded = vec![regions[1].id.clone()];
    let projection = FoldProjection::new(&source, &regions, &folded);
    let tail = source.find("\"tail\"").unwrap();
    let shown = projection.source_to_display(tail).unwrap();
    assert_eq!(&projection.text()[shown..shown + 6], "\"tail\"");
    assert_eq!(projection.display_to_source(shown), Some(tail));
    let mut mapped = 0;
    for position in 0..=source.len() {
        if let Some(display) = projection.source_to_display(position) {
            assert_eq!(projection.display_to_source(display), Some(position));
            mapped += 1;
        }
    }
    assert!(mapped > 0);
}
