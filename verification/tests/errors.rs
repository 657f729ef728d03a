use hanji::command::CommandError;
use hanji::editor::error::{edit_error, Error};
use hanji::selection::{Selection, SelectionError};
use hanji::text::{EditError, TextRange};

#[test]
fn selections_need_a_range_and_a_primary_one() {
    assert_eq!(Selection::new(Vec::new(), 0), Err(SelectionError::Empty));
    assert_eq!(
        Selection::new(vec![TextRange::new(0, 1)], 1),
        Err(SelectionError::InvalidPrimaryIndex)
    );
    let selection = Selection::new(vec![TextRange::new(0, 1), TextRange::new(3, 3)], 1).unwrap();
    assert_eq!(selection.primary(), TextRange::new(3, 3));
    assert!(!selection.is_caret());
    assert!(Selection::caret(3).is_caret());
}

#[test]
fn edit_errors_map_to_editor_errors() {
    assert_eq!(edit_error(EditError::InvalidRange), Error::InvalidRange);
    assert_eq!(edit_error(EditError::InvalidBoundary), Error::InvalidBoundary);
    assert_eq!(edit_error(EditError::EmptySelection), Error::InvalidSelection);
    assert_eq!(edit_error(EditError::OverlappingEdits), Error::Internal);
    assert_eq!(Error::from(CommandError::MultipleSelectionsUnsupported), Error::InvalidSelection);
    assert_eq!(Error::from(CommandError::Edit(EditError::InvalidRange)), Error::InvalidRange);
    assert_eq!(CommandError::from(EditError::OverlappingEdits), CommandError::Edit(EditError::OverlappingEdits));
}

#[test]
fn editor_errors_have_messages() {
    assert_eq!(Error::InvalidRange.message(), "invalid source range");
    assert_eq!(Error::InvalidBoundary.message(), "invalid text boundary");
    assert_eq!(Error::InvalidSelection.message(), "invalid selection");
    assert_eq!(Error::Internal.message(), "internal editor error");
}
