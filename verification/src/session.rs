//! Deciding what happens to a path handed to the editor at start-up or by the open
//! dialog, from what the file system reports about it.
use vstd::prelude::*;
use vstd::string::*;

verus! {

/// What to do with the path given at start-up.
#[derive(Debug, Clone, Copy, PartialEq, Eq, Structural)]
pub enum InitialPathAction {
    /// Refuse it: only Markdown files can be opened.
    Reject,
    /// Open the existing file.
    Open,
    /// Start a new, empty document that will be saved there.
    Create,
}

/// An existing path that is not a file, or a path without the Markdown extension, is
/// refused; an existing Markdown file is opened; a missing one is created.
pub fn initial_path_action(exists: bool, is_file: bool, is_markdown: bool) -> (r: InitialPathAction)
    ensures
        r == (if (exists && !is_file) || !is_markdown {
            InitialPathAction::Reject
        } else if exists {
            InitialPathAction::Open
        } else {
            InitialPathAction::Create
        }),
{
    if exists && !is_file {
        return InitialPathAction::Reject;
    }
    if !is_markdown {
        return InitialPathAction::Reject;
    }
    if exists {
        InitialPathAction::Open
    } else {
        InitialPathAction::Create
    }
}

pub open spec fn open_path_error(is_dir: bool, is_markdown: bool) -> Option<Seq<char>> {
    if is_dir {
        Some("Open folders with Open Folder."@)
    } else if !is_markdown {
        Some("Only Markdown files can be opened."@)
    } else {
        None
    }
}

/// Why the open dialog refuses a path: folders belong to Open Folder, and only
/// Markdown files can be opened.
pub fn validate_open_document_path(is_dir: bool, is_markdown: bool) -> (r: Result<(), &'static str>)
    ensures
        match open_path_error(is_dir, is_markdown) {
            Some(m) => r is Err && r->Err_0@ == m,
            None => r is Ok,
        },
{
    if is_dir {
        return Err("Open folders with Open Folder.");
    }
    if !is_markdown {
        return Err("Only Markdown files can be opened.");
    }
    Ok(())
}

/// The message for a path that is not a Markdown file.
pub fn markdown_file_required_message() -> (r: &'static str)
    ensures
        r@ == "Only Markdown files can be opened."@,
{
    "Only Markdown files can be opened."
}

/// The title of the window that shows a document: its label followed by the
/// application's name, or the name alone for the scratch document.
pub open spec fn title_of(document_label: Seq<char>, is_scratch: bool) -> Seq<char> {
    if is_scratch {
        "Hanji"@
    } else {
        document_label + " - Hanji"@
    }
}

/// The window title for a document with the label `document_label`.
pub fn window_title(document_label: &str, is_scratch: bool) -> (r: String)
    ensures
        r@ == title_of(document_label@, is_scratch),
{
    if is_scratch {
        return String::from_str("Hanji");
    }
    let mut title = String::from_str(document_label);
    title.append(" - Hanji");
    title
}

} // verus!
