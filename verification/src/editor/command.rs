//! Logical editor commands.
use vstd::prelude::*;

verus! {

/// A logical, platform-independent editor command.
///
/// Text insertion is intentionally absent. Platform text events must use
/// [`TextInput`](crate::editor::input::TextInput) so typing policy cannot be bypassed.
#[derive(Debug, Clone, Copy, PartialEq, Eq, Structural)]
pub enum Command {
    DeleteBackward,
    DeleteWordBackward,
    DeleteLineBackward,
    DeleteForward,
    InsertNewline,
    Indent,
    Outdent,
    ToggleStrong,
    ToggleEmphasis,
    ToggleCode,
    InsertLink,
    ToggleTaskAt(usize),
    Undo,
    Redo,
}

} // verus!
