use vellum::model_picker::{
    ListState, MAX_DISPLAY_CHARS, PickerAction, PickerKey, dedupe_models, display_name,
    filter_models, matching_models, next_cursor, picker_action, truncate_chars, unique_models,
};

fn models() -> Vec<String> {
    vec![
        "models/gemini-2.5-flash".into(),
        "models/gemini-flash-latest".into(),
        "gpt-4o-mini".into(),
    ]
}

#[test]
fn an_empty_query_lists_everything() {
    assert_eq!(filter_models(&models(), "").len(), 3);
    assert_eq!(filter_models(&models(), "   ").len(), 3);
}

#[test]
fn the_query_matches_case_insensitively_anywhere() {
    let found = filter_models(&models(), "FLASH");
    assert_eq!(found.len(), 2);
    assert!(found.iter().all(|model| model.contains("flash")));
}

#[test]
fn the_query_is_trimmed_before_matching() {
    assert_eq!(filter_models(&models(), "  gpt-4o  ").len(), 1);
}

#[test]
fn an_unknown_query_yields_nothing() {
    assert!(filter_models(&models(), "llama").is_empty());
}

#[test]
fn an_empty_list_yields_nothing_for_any_query() {
    assert!(filter_models(&[], "").is_empty());
    assert!(filter_models(&[], "flash").is_empty());
}

#[test]
fn repeats_collapse_to_the_first_spelling() {
    let fetched = vec!["gpt-4o".into(), "GPT-4O".into(), "gpt-4o".into()];
    assert_eq!(dedupe_models(&fetched), vec!["gpt-4o"]);
}

#[test]
fn blank_ids_are_dropped_and_the_rest_keeps_its_order() {
    let fetched = vec!["".into(), "  ".into(), "b".into(), "a".into()];
    assert_eq!(dedupe_models(&fetched), vec!["b", "a"]);
}

#[test]
fn an_empty_fetch_dedupes_to_nothing() {
    assert!(dedupe_models(&[]).is_empty());
}

#[test]
fn the_display_name_drops_the_endpoints_path_prefix() {
    assert_eq!(display_name("models/gemini-2.5-flash"), "gemini-2.5-flash");
    assert_eq!(display_name("gpt-4o-mini"), "gpt-4o-mini");
    assert_eq!(display_name("openai/gpt-4o-mini"), "openai/gpt-4o-mini");
}

#[test]
fn a_name_inside_the_budget_is_untouched() {
    assert_eq!(truncate_chars("gpt-4o-mini", 64), "gpt-4o-mini");
    assert_eq!(truncate_chars("abcd", 4), "abcd");
}

#[test]
fn clipping_marks_the_cut_and_keeps_the_budget() {
    assert_eq!(truncate_chars("abcdef", 4), "abc…");
    assert_eq!(
        truncate_chars(&"x".repeat(100), MAX_DISPLAY_CHARS).chars().count(),
        MAX_DISPLAY_CHARS
    );
}

#[test]
fn clipping_counts_characters_not_bytes() {
    let clipped = truncate_chars("模型模型模型", 3);
    assert_eq!(clipped, "模型…");
    assert_eq!(clipped.chars().count(), 3);
}

#[test]
fn the_cursor_enters_from_the_end_it_heads_to() {
    assert_eq!(next_cursor(None, 1, 3), Some(0));
    assert_eq!(next_cursor(None, -1, 3), Some(2));
}

#[test]
fn the_cursor_stops_at_both_ends() {
    assert_eq!(next_cursor(Some(0), -1, 3), Some(0));
    assert_eq!(next_cursor(Some(2), 1, 3), Some(2));
    assert_eq!(next_cursor(Some(1), 1, 3), Some(2));
}

#[test]
fn an_empty_list_has_no_cursor_to_move() {
    assert_eq!(next_cursor(None, 1, 0), None);
    assert_eq!(next_cursor(Some(0), 1, 0), None);
}

#[test]
fn keys_decide_what_matches_and_what_repeats() {
    let items = vec!["One".to_string(), "Two".into(), "Three".into()];
    let keys = vec!["one".to_string(), "two".into(), "three".into()];
    assert_eq!(matching_models(&items, &keys, "t"), vec!["Two", "Three"]);
    let keys = vec!["same".to_string(), "other".into(), "same".into()];
    assert_eq!(unique_models(&items, &keys), vec!["One", "Two"]);
}

#[test]
fn letters_outside_ascii_are_lowered_too() {
    let list = vec!["ÀÉ-large".to_string(), "àé-LARGE".into()];
    assert_eq!(dedupe_models(&list), vec!["ÀÉ-large"]);
    assert_eq!(filter_models(&list, "àé").len(), 2);
}

#[test]
fn the_list_follows_the_search_and_the_cursor() {
    let mut list = ListState::new();
    assert_eq!(list.tooltip(), "选择模型");
    list.refill("");
    assert_eq!(list.hint(), Some("先点「获取模型」"));
    assert_eq!(list.selected(), None);

    list.set_models(&models());
    list.refill("");
    assert_eq!(list.count(), 3);
    assert_eq!(list.tooltip(), "选择模型（接口返回 3 个）");
    assert_eq!(list.hint(), None);
    assert_eq!(list.selected().as_deref(), Some("models/gemini-2.5-flash"));
    list.step(1);
    list.step(1);
    list.step(1);
    assert_eq!(list.selected().as_deref(), Some("gpt-4o-mini"));
    list.highlight_current("  MODELS/gemini-flash-latest ");
    assert_eq!(list.cursor, Some(1));
    list.highlight_current("not offered");
    assert_eq!(list.cursor, Some(0));
    assert_eq!(list.model_at(2).as_deref(), Some("gpt-4o-mini"));
    assert_eq!(list.model_at(3), None);
    assert_eq!(list.model_at(-1), None);

    list.refill("llama");
    assert_eq!(list.hint(), Some("没有匹配的模型"));
    assert_eq!(list.cursor, None);
}

#[test]
fn a_space_is_a_character_while_searching() {
    assert_eq!(picker_action(PickerKey::Space, true), None);
    assert_eq!(picker_action(PickerKey::Space, false), Some(PickerAction::Commit));
    assert_eq!(picker_action(PickerKey::Return, true), Some(PickerAction::Commit));
    assert_eq!(picker_action(PickerKey::Escape, true), Some(PickerAction::Close));
    assert_eq!(picker_action(PickerKey::Up, true), Some(PickerAction::Previous));
    assert_eq!(picker_action(PickerKey::Down, true), Some(PickerAction::Next));
    assert_eq!(picker_action(PickerKey::Other, false), None);
}

#[test]
fn a_budget_of_nothing_leaves_nothing() {
    assert_eq!(truncate_chars("abc", 0), "");
    assert_eq!(truncate_chars("", 0), "");
    assert_eq!(truncate_chars("abc", 1), "…");
}
