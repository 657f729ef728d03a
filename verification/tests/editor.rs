use hanji::editor::error::Error;
use hanji::editor::input::TextInput;
use hanji::editor::selection::TextSelection;
use hanji::editor::Editor;
use hanji::text::TextRange;

#[test]
fn distinguishes_typing_policy_from_literal_input() {
    let mut typing = Editor::new("*");
    typing.set_selection(TextSelection::caret(1)).unwrap();
    typing.replace_text(TextInput::typing("*")).unwrap();

    let mut literal = Editor::new("*");
    literal.set_selection(TextSelection::caret(1)).unwrap();
    literal.replace_text(TextInput::literal("*")).unwrap();

    assert_eq!(typing.source(), "****");
    assert_eq!(typing.selection(), TextSelection::caret(2));
    assert_eq!(literal.source(), "**");
    assert_eq!(literal.selection(), TextSelection::caret(2));
}

#[test]
fn preserves_directional_selection_until_an_edit_resolves_it() {
    let mut editor = Editor::new("Hanji");

    editor.set_selection(TextSelection::new(5, 0)).unwrap();

    assert!(editor.selection().is_reversed());
    assert_eq!(editor.selection().range(), TextRange::new(0, 5));
}

#[test]
fn maps_internal_errors_to_editor_owned_errors() {
    let mut editor = Editor::new("한지");

    assert_eq!(
        editor.set_selection(TextSelection::caret(1)),
        Err(Error::InvalidBoundary)
    );
    assert_eq!(
        editor.set_selection(TextSelection::caret(99)),
        Err(Error::InvalidRange)
    );
}

#[test]
fn typed_text_reports_changes_and_can_be_undone_by_history() {
    let mut editor = Editor::new("# Hanji");
    editor.set_selection(TextSelection::caret(7)).unwrap();
    let update = editor.replace_text(TextInput::typing(" editor")).unwrap();

    assert!(update.text_changed());
    assert!(update.history_changed());
    assert!(update.selection_changed());
    assert_eq!(editor.source(), "# Hanji editor");
    assert_eq!(editor.selection(), TextSelection::caret(14));
    assert!(editor.can_undo());
    assert!(!editor.can_redo());
}

#[test]
fn typing_wraps_a_selection_and_selects_the_wrapped_text() {
    let mut editor = Editor::new("Hanji notes");
    editor.set_selection(TextSelection::new(6, 11)).unwrap();
    editor.replace_text(TextInput::typing("**")).unwrap();

    assert_eq!(editor.source(), "Hanji **notes**");
    assert_eq!(editor.selection(), TextSelection::new(8, 13));
}

#[test]
fn typing_skips_a_closing_strong_marker() {
    let mut editor = Editor::new("**Hanji**");
    editor.set_selection(TextSelection::caret(7)).unwrap();
    let update = editor.replace_text(TextInput::typing("*")).unwrap();

    assert_eq!(editor.source(), "**Hanji**");
    assert_eq!(editor.selection(), TextSelection::caret(9));
    assert!(!update.text_changed());
    assert!(update.selection_changed());
}

#[test]
fn replacing_an_explicit_range_sets_the_requested_selection() {
    let mut editor = Editor::new("Hanji");
    let input = TextInput::literal("Paper")
        .replacing(TextRange::new(0, 5))
        .selecting_after(TextSelection::new(5, 0));
    editor.replace_text(input).unwrap();

    assert_eq!(editor.source(), "Paper");
    assert_eq!(editor.selection(), TextSelection::new(5, 0));
    assert_eq!(editor.line_count(), 1);
    assert_eq!(editor.position_at_offset(5).unwrap().column, 5);
}

#[test]
fn refused_requests_leave_the_editor_unchanged() {
    let mut editor = Editor::new("한지");
    editor.set_selection(TextSelection::new(0, 3)).unwrap();

    assert_eq!(
        editor.replace_text(TextInput::literal("x").replacing(TextRange::new(1, 3))),
        Err(Error::InvalidBoundary)
    );
    assert_eq!(
        editor.replace_text(TextInput::literal("x").replacing(TextRange::new(3, 9))),
        Err(Error::InvalidRange)
    );
    assert_eq!(editor.source(), "한지");
    assert_eq!(editor.selection(), TextSelection::new(0, 3));
    assert!(!editor.can_undo());
}

#[test]
fn replacing_text_by_itself_reports_a_history_change() {
    let mut editor = Editor::new("a");
    assert!(!editor.can_undo());
    let update = editor
        .replace_text(TextInput::literal("a").replacing(TextRange::new(0, 1)))
        .unwrap();

    assert_eq!(editor.source(), "a");
    assert!(!update.text_changed());
    assert!(update.history_changed());
    assert!(editor.can_undo());
}

#[test]
fn moving_the_selection_reports_no_history_change() {
    let mut editor = Editor::new("Hanji");
    let update = editor.set_selection(TextSelection::caret(3)).unwrap();

    assert!(update.selection_changed());
    assert!(!update.text_changed());
    assert!(!update.history_changed());
}
