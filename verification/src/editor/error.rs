//! Errors exposed by the editor facade.
use vstd::prelude::*;
use crate::text::EditError;
use crate::command::CommandError;

verus! {

/// Errors exposed by the platform-independent editor API.
#[derive(Debug, Clone, Copy, PartialEq, Eq, Structural)]
pub enum Error {
    /// A source range points outside the document or has invalid ordering.
    InvalidRange,
    /// A source offset does not fall on a character boundary.
    InvalidBoundary,
    /// The requested selection cannot be represented by the editor.
    InvalidSelection,
    /// An internal edit plan violated an editor invariant.
    Internal,
}

/// How an edit error surfaces through the editor.
pub open spec fn error_of_edit(e: EditError) -> Error {
    match e {
        EditError::InvalidRange => Error::InvalidRange,
        EditError::InvalidBoundary => Error::InvalidBoundary,
        EditError::EmptySelection => Error::InvalidSelection,
        EditError::OverlappingEdits => Error::Internal,
    }
}

/// How a command error surfaces through the editor.
pub open spec fn error_of_command(e: CommandError) -> Error {
    match e {
        CommandError::Edit(e) => error_of_edit(e),
        CommandError::MultipleSelectionsUnsupported => Error::InvalidSelection,
    }
}

pub fn edit_error(e: EditError) -> (r: Error)
    ensures
        r == error_of_edit(e),
{
    match e {
        EditError::InvalidRange => Error::InvalidRange,
        EditError::InvalidBoundary => Error::InvalidBoundary,
        EditError::EmptySelection => Error::InvalidSelection,
        EditError::OverlappingEdits => Error::Internal,
    }
}

impl Error {
    /// The message that describes the error.
    pub fn message(self) -> (s: &'static str)
        ensures
            self == Error::InvalidRange ==> s@ == "invalid source range"@,
            self == Error::InvalidBoundary ==> s@ == "invalid text boundary"@,
            self == Error::InvalidSelection ==> s@ == "invalid selection"@,
            self == Error::Internal ==> s@ == "internal editor error"@,
    {
        match self {
            Error::InvalidRange => "invalid source range",
            Error::InvalidBoundary => "invalid text boundary",
            Error::InvalidSelection => "invalid selection",
            Error::Internal => "internal editor error",
        }
    }
}

impl From<EditError> for Error {
    fn from(error: EditError) -> (r: Self) {
        edit_error(error)
    }
}

impl vstd::std_specs::convert::FromSpecImpl<EditError> for Error {
    open spec fn obeys_from_spec() -> bool {
        true
    }

    open spec fn from_spec(error: EditError) -> Error {
        error_of_edit(error)
    }
}

impl From<CommandError> for Error {
    fn from(error: CommandError) -> (r: Self) {
        match error {
            CommandError::Edit(e) => edit_error(e),
            CommandError::MultipleSelectionsUnsupported => Error::InvalidSelection,
        }
    }
}

impl vstd::std_specs::convert::FromSpecImpl<CommandError> for Error {
    open spec fn obeys_from_spec() -> bool {
        true
    }

    open spec fn from_spec(error: CommandError) -> Error {
        error_of_command(error)
    }
}

} // verus!
