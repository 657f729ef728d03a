//! Plain-text editing commands on a document's single selection.
use vstd::prelude::*;
use vstd::utf8::*;
use crate::text::{TextRange, EditError, range_error, line_starts, lemma_line_starts_upto, lemma_line_bounds_are_boundaries};
use crate::selection::{Selection, caret_view};
use crate::transaction::Transaction;
use crate::document::{Document, DocumentState, DocumentChange, apply_step};
use crate::segmentation::{grapheme_bounds, word_spans, last_below, first_above, last_word_start_below};

verus! {

#[derive(Debug, Clone, PartialEq, Eq)]
pub enum EditorCommand {
    InsertText(String),
    DeleteBackward,
    DeleteWordBackward,
    DeleteLineBackward,
    DeleteForward,
}

impl EditorCommand {
    pub fn insert_text(text: &str) -> (c: Self)
        ensures
            c is InsertText,
            c->InsertText_0@ == text@,
    {
        EditorCommand::InsertText(text.to_owned())
    }
}

#[derive(Debug, Clone, Copy, PartialEq, Eq, Structural)]
pub enum CommandError {
    Edit(EditError),
    MultipleSelectionsUnsupported,
}

impl From<EditError> for CommandError {
    fn from(error: EditError) -> (r: Self) {
        CommandError::Edit(error)
    }
}

impl vstd::std_specs::convert::FromSpecImpl<EditError> for CommandError {
    open spec fn obeys_from_spec() -> bool {
        true
    }

    open spec fn from_spec(error: EditError) -> CommandError {
        CommandError::Edit(error)
    }
}

/// A document result as a command result: applied edits report `true`.
pub open spec fn command_result(r: Result<DocumentChange, EditError>) -> Result<bool, CommandError> {
    match r {
        Ok(_) => Ok(true),
        Err(e) => Err(CommandError::Edit(e)),
    }
}

/// Deleting a range: nothing happens for an empty range; otherwise the range is removed
/// and a caret is placed at its start.
pub open spec fn delete_range_step(s: DocumentState, range: TextRange) -> (Result<bool, CommandError>, DocumentState) {
    if range.start == range.end {
        (Ok(false), s)
    } else {
        let (r, s1) = apply_step(s, seq![(range, Seq::<char>::empty())], Some(caret_view(range.start)));
        (command_result(r), s1)
    }
}

/// The start of the line that holds `offset`.
pub open spec fn line_start_at(bytes: Seq<u8>, offset: int) -> Option<usize> {
    last_below(line_starts(bytes), offset + 1)
}

/// The outcome of a command, given the caret `range` of a single-range selection that
/// is empty.
pub open spec fn caret_command_step(s: DocumentState, command: EditorCommand, caret: usize) -> (
    Result<bool, CommandError>,
    DocumentState,
) {
    let bytes = encode_utf8(s.current.text);
    match range_error(bytes, TextRange { start: caret, end: caret }) {
        Some(e) => (Err(CommandError::Edit(e)), s),
        None => match command {
            EditorCommand::DeleteBackward => match last_below(grapheme_bounds(s.current.text), caret as int) {
                None => (Ok(false), s),
                Some(p) => delete_range_step(s, TextRange { start: p, end: caret }),
            },
            EditorCommand::DeleteForward => match first_above(grapheme_bounds(s.current.text), caret as int) {
                None => (Ok(false), s),
                Some(q) => delete_range_step(s, TextRange { start: caret, end: q }),
            },
            EditorCommand::DeleteLineBackward => match line_start_at(bytes, caret as int) {
                None => (Err(CommandError::Edit(EditError::InvalidRange)), s),
                Some(line_start) => delete_range_step(s, TextRange { start: line_start, end: caret }),
            },
            EditorCommand::DeleteWordBackward => match line_start_at(bytes, caret as int) {
                None => (Err(CommandError::Edit(EditError::InvalidRange)), s),
                Some(line_start) => {
                    let start = match last_word_start_below(word_spans(s.current.text), caret as int) {
                        None => line_start,
                        Some(w) => if w > line_start {
                            w
                        } else {
                            line_start
                        },
                    };
                    delete_range_step(s, TextRange { start, end: caret })
                },
            },
            EditorCommand::InsertText(_) => (Ok(false), s),
        },
    }
}

/// Backward deletion at the start of the text or of a line, and forward deletion at
/// its end, have nothing to delete.
pub open spec fn caret_command_is_noop(s: DocumentState, command: EditorCommand, caret: usize) -> bool {
    let bytes = encode_utf8(s.current.text);
    ||| command is DeleteForward && caret == bytes.len()
    ||| command is DeleteBackward && caret == 0
    ||| (command is DeleteLineBackward || command is DeleteWordBackward) && line_starts(bytes).contains(caret)
}

/// The start of the last word before `x` lies before `x`.
proof fn lemma_word_start_below(spans: Seq<(usize, usize)>, x: int)
    ensures
        last_word_start_below(spans, x) matches Some(w) ==> w < x,
    decreases spans.len(),
{
    if spans.len() > 0 {
        lemma_word_start_below(spans.drop_last(), x);
    }
}

/// The outcome of executing `command` on a document state.
pub open spec fn execute_step(s: DocumentState, command: EditorCommand) -> (Result<bool, CommandError>, DocumentState) {
    let ranges = s.current.selection.0;
    if ranges.len() != 1 {
        (Err(CommandError::MultipleSelectionsUnsupported), s)
    } else {
        let range = ranges[0];
        match command {
            EditorCommand::InsertText(text) => {
                let caret = (range.start + encode_utf8(text@).len()) as usize;
                let (r, s1) = apply_step(s, seq![(range, text@)], Some(caret_view(caret)));
                (command_result(r), s1)
            },
            _ => if range.start != range.end {
                delete_range_step(s, range)
            } else {
                caret_command_step(s, command, range.start)
            },
        }
    }
}

/// A strictly increasing sequence: the entry at `i` is the last one below `x + 1` when
/// the next entry lies above `x`.
proof fn lemma_last_below_at(b: Seq<usize>, i: int, x: int)
    requires
        0 <= i < b.len(),
        forall|j: int, k: int| 0 <= j < k < b.len() ==> b[j] < b[k],
        b[i] <= x,
        i + 1 < b.len() ==> b[i + 1] > x,
    ensures
        last_below(b, x + 1) == Some(b[i]),
    decreases b.len(),
{
    if i + 1 < b.len() {
        let dl = b.drop_last();
        lemma_last_below_at(dl, i, x);
    }
}

impl Document {
    pub fn execute(&mut self, command: EditorCommand) -> (r: Result<bool, CommandError>)
        requires
            command is InsertText && old(self)@.current.selection.0.len() == 1 ==> old(self)@.current.selection.0[0].start
                + encode_utf8(command->InsertText_0@).len() <= usize::MAX,
        ensures
            (r, final(self)@) == execute_step(old(self)@, command),
            ({
                let ranges = old(self)@.current.selection.0;
                ranges.len() == 1 && ranges[0].start == ranges[0].end && caret_command_is_noop(
                    old(self)@,
                    command,
                    ranges[0].start,
                ) ==> r == Ok::<bool, CommandError>(false) && final(self)@ == old(self)@
            }),
    {
        let range = self.single_selection_range()?;
        match command {
            EditorCommand::InsertText(text) => self.insert_text(range, text),
            _ => {
                if !range.is_empty() {
                    return self.delete_range(range);
                }
                self.caret_command(command, range.start)
            },
        }
    }

    fn single_selection_range(&self) -> (r: Result<TextRange, CommandError>)
        ensures
            self@.current.selection.0.len() != 1 ==> r == Err::<TextRange, CommandError>(CommandError::MultipleSelectionsUnsupported),
            self@.current.selection.0.len() == 1 ==> r == Ok::<TextRange, CommandError>(self@.current.selection.0[0]),
    {
        let ranges = self.selection().ranges();
        if ranges.len() != 1 {
            return Err(CommandError::MultipleSelectionsUnsupported);
        }
        Ok(ranges[0])
    }

    fn insert_text(&mut self, range: TextRange, text: String) -> (r: Result<bool, CommandError>)
        requires
            range.start + encode_utf8(text@).len() <= usize::MAX,
        ensures
            (r, final(self)@) == ({
                let (r0, s1) = apply_step(
                    old(self)@,
                    seq![(range, text@)],
                    Some(caret_view((range.start + encode_utf8(text@).len()) as usize)),
                );
                (command_result(r0), s1)
            }),
    {
        let caret = range.start + text.as_str().as_bytes().len();
        let transaction = Transaction::replace(range, text.as_str()).with_selection_after(Selection::caret(caret));
        proof {
            assert(transaction@.0 =~= seq![(range, text@)]);
        }
        match self.apply(transaction) {
            Ok(_) => Ok(true),
            Err(e) => Err(CommandError::Edit(e)),
        }
    }

    fn delete_range(&mut self, range: TextRange) -> (r: Result<bool, CommandError>)
        ensures
            (r, final(self)@) == delete_range_step(old(self)@, range),
    {
        if range.is_empty() {
            return Ok(false);
        }
        let caret = range.start;
        let empty = "";
        proof {
            reveal_strlit("");
            assert(empty@ =~= Seq::<char>::empty());
            assert(encode_utf8(empty@) =~= Seq::<u8>::empty());
        }
        let transaction = Transaction::replace(range, empty).with_selection_after(Selection::caret(caret));
        proof {
            assert(transaction@.0 =~= seq![(range, Seq::<char>::empty())]);
        }
        match self.apply(transaction) {
            Ok(_) => Ok(true),
            Err(e) => Err(CommandError::Edit(e)),
        }
    }

    /// The start of the line that holds the caret offset `offset`.
    fn line_start_of(&self, offset: usize) -> (r: Result<usize, CommandError>)
        ensures
            match range_error(self.bytes(), TextRange::caret_spec(offset)) {
                Some(e) => r == Err::<usize, CommandError>(CommandError::Edit(e)),
                None => match line_start_at(self.bytes(), offset as int) {
                    None => r == Err::<usize, CommandError>(CommandError::Edit(EditError::InvalidRange)),
                    Some(v) => r == Ok::<usize, CommandError>(v),
                },
            },
    {
        let line_index = match self.line_index_at_offset(offset) {
            Ok(i) => i,
            Err(e) => return Err(CommandError::Edit(e)),
        };
        let _ = self.len();
        proof {
            lemma_line_starts_upto(self.bytes(), self.bytes().len() as int);
            lemma_last_below_at(line_starts(self.bytes()), line_index as int, offset as int);
        }
        match self.line_range(line_index) {
            Some(r) => Ok(r.start),
            None => Err(CommandError::Edit(EditError::InvalidRange)),
        }
    }

    fn caret_command(&mut self, command: EditorCommand, caret: usize) -> (r: Result<bool, CommandError>)
        requires
            !(command is InsertText),
        ensures
            (r, final(self)@) == caret_command_step(old(self)@, command, caret),
            caret_command_is_noop(old(self)@, command, caret) ==> r == Ok::<bool, CommandError>(false)
                && final(self)@ == old(self)@,
    {
        let ghost bytes = self.bytes();
        let _ = self.len();
        proof {
            encode_utf8_valid_utf8(self@.current.text);
            is_char_boundary_start_end_of_seq(bytes);
            if (command is DeleteLineBackward || command is DeleteWordBackward) && line_starts(bytes).contains(caret) {
                let starts = line_starts(bytes);
                let i = choose|i: int| 0 <= i < starts.len() && starts[i] == caret;
                lemma_line_starts_upto(bytes, bytes.len() as int);
                lemma_line_bounds_are_boundaries(self@.current.text, i);
                lemma_last_below_at(starts, i, caret as int);
                lemma_word_start_below(word_spans(self@.current.text), caret as int);
            }
        }
        match command {
            EditorCommand::DeleteBackward => {
                let previous = match self.previous_grapheme_offset(caret) {
                    Ok(p) => p,
                    Err(e) => return Err(CommandError::Edit(e)),
                };
                match previous {
                    None => Ok(false),
                    Some(p) => self.delete_range(TextRange::new(p, caret)),
                }
            },
            EditorCommand::DeleteForward => {
                let next = match self.next_grapheme_offset(caret) {
                    Ok(q) => q,
                    Err(e) => return Err(CommandError::Edit(e)),
                };
                match next {
                    None => Ok(false),
                    Some(q) => self.delete_range(TextRange::new(caret, q)),
                }
            },
            EditorCommand::DeleteLineBackward => {
                let line_start = self.line_start_of(caret)?;
                self.delete_range(TextRange::new(line_start, caret))
            },
            EditorCommand::DeleteWordBackward => {
                let line_start = self.line_start_of(caret)?;
                let previous = match self.previous_word_offset(caret) {
                    Ok(p) => p,
                    Err(e) => return Err(CommandError::Edit(e)),
                };
                let start = match previous {
                    None => line_start,
                    Some(w) => if w > line_start { w } else { line_start },
                };
                self.delete_range(TextRange::new(start, caret))
            },
            EditorCommand::InsertText(_) => Ok(false),
        }
    }
}

} // verus!
