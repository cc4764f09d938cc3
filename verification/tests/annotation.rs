use vellum::annotate::{Annotator, Point, TEXT_SIZE_RANGE, Tool, WHOLE, WIDTH_RANGE, shown_text};

/// A point in pixels.
fn at(x: i32, y: i32) -> Point {
    Point { x: x * 1000, y: y * 1000 }
}

fn annotator() -> Annotator {
    Annotator::new()
}

/// What stands on the screen of the text that is being typed.
fn shown(a: &Annotator) -> String {
    let edit = a.editing.as_ref().expect("a text is being typed");
    shown_text(&edit.stroke.text, &edit.preedit, true)
}

#[test]
fn a_pen_drag_becomes_one_stroke() {
    let mut a = annotator();
    a.press(at(20, 30));
    a.motion(at(40, 50));
    a.motion(at(60, 70));
    a.release(at(60, 70));
    assert_eq!(a.strokes.len(), 1);
    assert_eq!(a.strokes[0].points.len(), 3);
}

#[test]
fn tiny_pointer_jitter_is_dropped() {
    let mut a = annotator();
    a.press(at(20, 30));
    a.motion(Point { x: 20_400, y: 30_400 });
    a.motion(Point { x: 20_500, y: 30_500 });
    a.release(Point { x: 20_500, y: 30_500 });
    assert!(a.strokes.is_empty());
}

#[test]
fn a_click_without_drag_does_not_create_a_rectangle() {
    let mut a = annotator();
    a.set_tool(Tool::Rect);
    a.press(at(50, 50));
    a.release(at(51, 51));
    assert!(a.strokes.is_empty());
}

#[test]
fn undo_cancels_an_unfinished_label_before_touching_strokes() {
    let mut a = annotator();
    a.press(at(20, 30));
    a.motion(at(40, 50));
    a.release(at(40, 50));
    a.set_tool(Tool::Text);
    a.press(at(60, 60));
    a.type_char('嗨');

    a.undo();
    assert!(!a.is_editing_text());
    assert_eq!(a.strokes.len(), 1, "the finished pen stroke must survive");

    a.undo();
    assert!(a.strokes.is_empty());
}

#[test]
fn an_empty_label_is_discarded_on_commit() {
    let mut a = annotator();
    a.set_tool(Tool::Text);
    a.press(at(60, 60));
    a.commit_text();
    assert!(a.strokes.is_empty());
    assert!(!a.has_content());
}

#[test]
fn switching_tools_commits_the_label() {
    let mut a = annotator();
    a.set_tool(Tool::Text);
    a.press(at(60, 60));
    a.type_char('A');
    a.set_tool(Tool::Pen);
    assert!(!a.is_editing_text());
    assert_eq!(a.strokes.len(), 1);
    assert_eq!(a.strokes[0].text, "A");
}

#[test]
fn a_commit_inserts_the_entire_word() {
    let mut a = annotator();
    a.set_tool(Tool::Text);
    a.press(at(60, 60));
    a.type_str("你好");
    a.commit_text();
    assert_eq!(a.strokes.len(), 1);
    assert_eq!(a.strokes[0].text, "你好");
}

#[test]
fn a_composition_is_shown_but_not_committed() {
    let mut a = annotator();
    a.set_tool(Tool::Text);
    a.press(at(60, 60));
    a.type_str("A");

    assert_eq!(shown(&a), "A|");

    a.set_preedit("nnnn");
    assert_eq!(a.preedit(), "nnnn");
    assert_eq!(shown(&a), "Annnn|");

    a.set_preedit("nnnnnnnn");
    assert_eq!(shown(&a), "Annnnnnnn|");

    a.commit_text();
    assert_eq!(a.strokes[0].text, "A", "the composition leaked into the label");
}

#[test]
fn committing_text_clears_the_composition() {
    let mut a = annotator();
    a.set_tool(Tool::Text);
    a.press(at(60, 60));
    a.set_preedit("ni");
    a.type_str("你");
    assert_eq!(a.preedit(), "", "a stale composition would draw twice");
}

#[test]
fn backspace_edits_the_composition_before_the_label() {
    let mut a = annotator();
    a.set_tool(Tool::Text);
    a.press(at(60, 60));
    a.type_str("你");
    a.set_preedit("hao");

    a.backspace();
    assert_eq!(a.preedit(), "", "the composition should be dropped first");
    assert_eq!(a.strokes.len(), 0);

    a.backspace();
    a.commit_text();
    assert!(a.strokes.is_empty(), "the committed character was deleted");
}

#[test]
fn a_composition_is_never_baked() {
    let mut a = annotator();
    a.set_tool(Tool::Text);
    a.press(at(60, 60));
    a.set_preedit("ni");
    a.commit_text();
    assert!(
        !a.has_content(),
        "an uncommitted composition must not survive into the result"
    );
}

#[test]
fn the_caret_anchor_is_the_label_origin() {
    let mut a = annotator();
    assert_eq!(a.caret_anchor(), None, "no label, no anchor");
    a.set_tool(Tool::Text);
    a.press(at(60, 70));
    assert_eq!(a.caret_anchor(), Some(at(60, 70)));
    a.commit_text();
    assert_eq!(a.caret_anchor(), None, "a finished label has no caret");
}

#[test]
fn the_size_slider_covers_the_active_tools_own_quantity() {
    let mut a = annotator();
    a.set_tool(Tool::Pen);
    assert_eq!(a.size_range(), WIDTH_RANGE);
    a.set_size(9_000);
    assert_eq!(a.width(), 9_000, "the pen width is what the slider set");
    assert_eq!(a.size(), 9_000);

    a.set_tool(Tool::Text);
    assert_eq!(a.size_range(), TEXT_SIZE_RANGE);
    assert_eq!(a.text_size(), 36_000, "a 9 px pen defaults to 36 px type");
    a.set_size(50_000);
    assert_eq!(a.text_size(), 50_000);
    assert_eq!(a.width(), 9_000, "setting the type size must not move the pen");
}

#[test]
fn the_slider_fraction_round_trips() {
    let mut a = annotator();
    a.set_tool(Tool::Pen);
    let (lo, hi) = a.size_range();

    a.set_size_fraction(0);
    assert_eq!(a.width(), lo);
    a.set_size_fraction(i64::from(WHOLE));
    assert_eq!(a.width(), hi);
    a.set_size_fraction(i64::from(WHOLE) / 2);
    assert_eq!(a.width(), (lo + hi) / 2);
    assert_eq!(a.size_fraction(), WHOLE / 2);
}

#[test]
fn the_slider_clamps_at_both_ends() {
    let mut a = annotator();
    a.set_tool(Tool::Pen);
    let (lo, hi) = a.size_range();
    a.set_size_fraction(-3 * i64::from(WHOLE));
    assert_eq!(a.width(), lo);
    assert_eq!(a.size_fraction(), 0);
    a.set_size_fraction(4 * i64::from(WHOLE));
    assert_eq!(a.width(), hi);
    assert_eq!(a.size_fraction(), WHOLE);
}

#[test]
fn the_wheel_moves_the_slider_for_any_tool() {
    let mut a = annotator();
    a.set_tool(Tool::Rect);
    let before = a.width();
    a.nudge_size(100_000);
    assert!(a.width() > before, "the wheel did not widen the rectangle pen");

    a.set_tool(Tool::Text);
    let before = a.text_size();
    a.nudge_size(100_000);
    assert!(a.text_size() > before, "the wheel did not grow the label");
}

#[test]
fn the_stroke_width_is_continuous() {
    let mut a = annotator();
    a.set_size(6_300);
    assert_eq!(a.width(), 6_300);
    assert!(
        WIDTH_RANGE.0 < 6_300 && 6_300 < WIDTH_RANGE.1,
        "the value must be inside the slider range"
    );
}

#[test]
fn a_label_follows_the_stroke_width_until_the_size_is_set() {
    let mut a = annotator();
    a.set_width(4_000);
    assert_eq!(a.text_size(), 16_000, "a 4 px pen used to give 16 px text");
    a.set_width(11_000);
    assert_eq!(a.text_size(), 44_000, "an 11 px pen used to give 44 px text");
}

#[test]
fn the_label_size_is_independent_of_the_pen_width() {
    let mut a = annotator();
    a.set_width(2_000);
    a.set_text_size(64_000);
    assert_eq!(a.text_size(), 64_000);
    a.set_width(11_000);
    assert_eq!(
        a.text_size(),
        64_000,
        "changing the pen width overrode the chosen label size"
    );
}

#[test]
fn the_label_size_is_clamped_to_the_slider_range() {
    let mut a = annotator();
    a.set_text_size(1_000);
    assert_eq!(a.text_size(), TEXT_SIZE_RANGE.0);
    a.set_text_size(10_000_000);
    assert_eq!(a.text_size(), TEXT_SIZE_RANGE.1);
}

#[test]
fn adjusting_the_size_resizes_the_label_being_typed() {
    let mut a = annotator();
    a.set_tool(Tool::Text);
    a.press(at(40, 60));
    a.set_text_size(TEXT_SIZE_RANGE.0);
    a.type_str("MMMM");
    assert_eq!(a.editing.as_ref().map(|edit| edit.stroke.size), Some(10_000));

    a.set_text_size(64_000);
    assert_eq!(a.editing.as_ref().map(|edit| edit.stroke.size), Some(64_000));
}

#[test]
fn an_already_placed_label_keeps_its_size() {
    let mut a = annotator();
    a.set_tool(Tool::Text);
    a.press(at(40, 60));
    a.set_text_size(20_000);
    a.type_str("MMMM");
    a.commit_text();
    assert_eq!(a.strokes[0].size, 20_000);

    a.set_text_size(80_000);
    assert_eq!(
        a.strokes[0].size,
        20_000,
        "changing the size redrew a label that was already placed"
    );
}

#[test]
fn every_tool_has_a_button_of_its_own() {
    for tool in [Tool::Pen, Tool::Arrow, Tool::Rect, Tool::Text] {
        assert_eq!(Tool::from_button(tool.button_id()), Some(tool));
    }
    assert_eq!(Tool::from_button("no such button"), None);
}

#[test]
fn an_arrow_has_a_tail_and_a_head() {
    let mut a = annotator();
    a.set_tool(Tool::Arrow);
    a.press(at(10, 10));
    a.motion(at(40, 10));
    a.motion(at(90, 50));
    assert!(a.release(at(90, 50)));
    assert_eq!(a.strokes[0].points, vec![at(10, 10), at(90, 50)]);
}
