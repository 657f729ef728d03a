use hanji::document::{Document, DocumentChange};
use hanji::selection::Selection;
use hanji::text::{EditError, TextPosition, TextRange};
use hanji::transaction::Transaction;

#[test]
fn applies_insert_transaction_and_moves_selection() {
    let mut document = Document::new("Hanji");

    let change = document.apply(Transaction::insert(5, " notes")).unwrap();

    assert_eq!(change, DocumentChange::Applied);
    assert_eq!(document.text(), "Hanji notes");
    assert_eq!(document.selection().primary(), TextRange::caret(11));
}

#[test]
fn rejects_non_char_boundary_edits_without_changing_document() {
    let mut document = Document::new("한지");

    let error = document
        .apply(Transaction::replace(TextRange::new(1, 1), "x"))
        .unwrap_err();

    assert_eq!(error, EditError::InvalidBoundary);
    assert_eq!(document.text(), "한지");
    assert!(!document.can_undo());
}

#[test]
fn rejects_invalid_selection_without_changing_document() {
    let mut document = Document::new("Hanji");

    let error = document
        .apply(Transaction::insert(5, " notes").with_selection_after(Selection::caret(99)))
        .unwrap_err();

    assert_eq!(error, EditError::InvalidRange);
    assert_eq!(document.text(), "Hanji");
    assert_eq!(document.selection().primary(), TextRange::caret(0));
    assert!(!document.can_undo());
}

#[test]
fn undo_and_redo_restore_text_and_selection() {
    let mut document = Document::new("Hanji");

    document.set_selection(Selection::caret(5)).unwrap();
    document.apply(Transaction::insert(5, " notes")).unwrap();

    assert_eq!(document.undo(), Some(DocumentChange::Undone));
    assert_eq!(document.text(), "Hanji");
    assert_eq!(document.selection().primary(), TextRange::caret(5));
    assert!(document.can_redo());

    assert_eq!(document.redo(), Some(DocumentChange::Redone));
    assert_eq!(document.text(), "Hanji notes");
    assert_eq!(document.selection().primary(), TextRange::caret(11));
}

#[test]
fn new_transaction_clears_redo_history() {
    let mut document = Document::new("Hanji");

    document.apply(Transaction::insert(5, " notes")).unwrap();
    document.undo();
    document.apply(Transaction::insert(5, " draft")).unwrap();

    assert_eq!(document.text(), "Hanji draft");
    assert!(!document.can_redo());
}

#[test]
fn exposes_line_lookup() {
    let document = Document::new("Hanji\nnotes");

    assert_eq!(document.line_count(), 2);
    assert_eq!(document.line_range(1), Some(TextRange::new(6, 11)));
    assert_eq!(document.line_index_at_offset(6), Ok(1));
}

#[test]
fn exposes_position_conversion() {
    let document = Document::new("한지\nnotes");

    assert_eq!(
        document.position_at_offset("한지\nno".len()),
        Ok(TextPosition::new(1, 2))
    );
    assert_eq!(
        document.offset_at_position(TextPosition::new(0, 2)),
        Ok("한지".len())
    );
}


#[test]
fn redo_after_each_undo_restores_each_text() {
    let mut document = Document::new("Hanji");
    document.apply(Transaction::insert(5, " notes")).unwrap();
    document.apply(Transaction::insert(0, "# ")).unwrap();
    assert_eq!(document.text(), "# Hanji notes");

    assert_eq!(document.undo(), Some(DocumentChange::Undone));
    assert_eq!(document.undo(), Some(DocumentChange::Undone));
    assert_eq!(document.text(), "Hanji");
    assert_eq!(document.undo(), None);

    assert_eq!(document.redo(), Some(DocumentChange::Redone));
    assert_eq!(document.text(), "Hanji notes");
    assert_eq!(document.redo(), Some(DocumentChange::Redone));
    assert_eq!(document.text(), "# Hanji notes");
    assert_eq!(document.redo(), None);
    assert!(document.can_undo());
}

#[test]
fn grapheme_offsets_stop_at_the_edges_of_the_text() {
    let text = "e\u{301}🇰🇷";
    let document = Document::new(text);

    assert_eq!(document.next_grapheme_offset(text.len()), Ok(None));
    assert_eq!(document.previous_grapheme_offset(0), Ok(None));
    assert_eq!(document.next_grapheme_offset(0), Ok(Some(3)));
    assert_eq!(document.previous_grapheme_offset(text.len()), Ok(Some(3)));
    for offset in 0..=text.len() {
        let nearest = document.nearest_grapheme_offset(offset).unwrap();
        assert!(nearest <= text.len());
        assert!(text.is_char_boundary(nearest));
    }
}
