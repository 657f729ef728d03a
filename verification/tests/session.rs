use hanji::file_browser::is_markdown_file;
use hanji::session::{
    initial_path_action, markdown_file_required_message, validate_open_document_path,
    InitialPathAction,
};

#[test]
fn missing_markdown_path_starts_a_new_document() {
    assert_eq!(initial_path_action(false, false, true), InitialPathAction::Create);
}

#[test]
fn non_markdown_paths_are_refused() {
    assert_eq!(initial_path_action(false, false, false), InitialPathAction::Reject);
    assert_eq!(initial_path_action(true, true, false), InitialPathAction::Reject);
    assert_eq!(markdown_file_required_message(), "Only Markdown files can be opened.");
}

#[test]
fn existing_directories_are_refused() {
    assert_eq!(initial_path_action(true, false, true), InitialPathAction::Reject);
}

#[test]
fn existing_markdown_files_are_opened() {
    assert_eq!(initial_path_action(true, true, true), InitialPathAction::Open);
}

#[test]
fn open_dialog_refuses_folders_and_other_files() {
    assert_eq!(validate_open_document_path(false, true), Ok(()));
    assert_eq!(
        validate_open_document_path(true, true),
        Err("Open folders with Open Folder.")
    );
    assert_eq!(
        validate_open_document_path(false, false),
        Err("Only Markdown files can be opened.")
    );
}

#[test]
fn open_document_path_validation_accepts_markdown_files_only() {
    let validate = |path: &str| {
        validate_open_document_path(std::path::Path::new(path).is_dir(), is_markdown_file(path))
    };
    assert!(validate("/tmp/note.md").is_ok());
    assert!(validate("/tmp/note.MD").is_ok());
    assert_eq!(validate("/tmp/note.txt"), Err(markdown_file_required_message()));
    assert_eq!(validate("/tmp/note.markdown"), Err(markdown_file_required_message()));
}
