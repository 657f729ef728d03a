//! The standard, platform-independent Hanji editor.
use vstd::prelude::*;
use vstd::utf8::*;
use std::ops::Range;
use crate::text::{TextRange, TextPosition, range_error, line_starts, line_range_of, is_line_of_offset};
use crate::selection::{Selection};
use crate::transaction::Transaction;
use crate::document::{Document, DocumentState, apply_step, set_selection_step, fresh_state};
use crate::editing::{marker_skip, marker_autocomplete, marker_skip_offset, marker_autocomplete_edit, is_fence_input};
use crate::editor::error::{Error, error_of_edit, edit_error};
use crate::editor::selection::TextSelection;
use crate::editor::update::Update;
use crate::editor::input::{TextInput, TextInputMode, TextInputView};
use crate::segmentation::{grapheme_bounds, bounds_fit, word_spans, last_below, first_above, nearest_bound, last_word_start_below, first_word_end_above, first_word_holding};
use crate::utf8::chars_between;
use crate::source::str_eq;

verus! {

broadcast use TextSelection::lemma_parts;

/// The abstract state of an editor: its document and its directional selection.
pub struct EditorState {
    pub document: DocumentState,
    pub selection: TextSelection,
}

/// What a text replacement does: move the caret past a marker, or replace a range and
/// then show a selection.
pub enum ReplacePlan {
    Skip(usize),
    Replace(Range<usize>, Seq<char>, Range<usize>),
}

/// The plan for `input` against the source and the current selection: typing may
/// skip a closing marker or autocomplete markers; otherwise the text replaces the
/// input's range (or the selection) as given, followed by the input's selection or a
/// caret after the inserted text.
pub open spec fn replace_plan(source: Seq<char>, current: TextSelection, input: TextInputView) -> ReplacePlan {
    let range = match input.range {
        Some(r) => r,
        None => current.range_spec(),
    };
    let source_range = Range { start: range.start, end: range.end };
    let typing = input.mode == TextInputMode::Typing;
    if typing && marker_skip(source, source_range, input.text) is Some {
        ReplacePlan::Skip(marker_skip(source, source_range, input.text)->Some_0)
    } else if typing && marker_autocomplete(source, source_range, input.text) is Some {
        let p = marker_autocomplete(source, source_range, input.text)->Some_0;
        ReplacePlan::Replace(p.0, p.1, p.2)
    } else {
        let after = match input.selection_after {
            Some(s) => s,
            None => TextSelection::spec_new(
                (range.start + encode_utf8(input.text).len()) as usize,
                (range.start + encode_utf8(input.text).len()) as usize,
            ),
        };
        ReplacePlan::Replace(source_range, input.text, Range { start: after.anchor_spec(), end: after.head_spec() })
    }
}

/// What an operation reports: whether the text, the selection and the history changed.
pub open spec fn update_between(before: EditorState, after: EditorState) -> (bool, bool, bool) {
    (
        before.document.current.text != after.document.current.text,
        before.selection != after.selection,
        before.document.undo != after.document.undo || before.document.redo != after.document.redo,
    )
}

/// Applying a replacement of `range` by `text`, then showing the selection `after`.
pub open spec fn replacement_outcome(s: EditorState, range: Range<usize>, text: Seq<char>, after: Range<usize>) -> (
    Result<(), Error>,
    EditorState,
) {
    let selection = TextSelection::spec_new(after.start, after.end);
    let (r, d1) = apply_step(
        s.document,
        seq![(TextRange { start: range.start, end: range.end }, text)],
        Some((seq![selection.range_spec()], 0usize)),
    );
    match r {
        Err(e) => (Err(error_of_edit(e)), s),
        Ok(_) => (Ok(()), EditorState { document: d1, selection }),
    }
}

/// Moving the selection, after checking it against the text.
pub open spec fn selection_outcome(s: EditorState, selection: TextSelection) -> (Result<(), Error>, EditorState) {
    let (r, d1) = set_selection_step(s.document, (seq![selection.range_spec()], 0usize));
    match r {
        Err(e) => (Err(error_of_edit(e)), s),
        Ok(_) => (Ok(()), EditorState { document: d1, selection }),
    }
}

/// The outcome of a text replacement.
pub open spec fn replace_outcome(s: EditorState, input: TextInputView) -> (Result<(), Error>, EditorState) {
    match replace_plan(s.document.current.text, s.selection, input) {
        ReplacePlan::Skip(offset) => selection_outcome(s, TextSelection::spec_new(offset, offset)),
        ReplacePlan::Replace(range, text, after) => replacement_outcome(s, range, text, after),
    }
}

/// An outcome reported as an update.
pub open spec fn reported(before: EditorState, outcome: (Result<(), Error>, EditorState), r: Result<Update, Error>) -> bool {
    match outcome.0 {
        Err(e) => r == Err::<Update, Error>(e),
        Ok(_) => r is Ok && r->Ok_0@ == update_between(before, outcome.1),
    }
}

/// The range that a text input replaces: its own, or else the selection.
pub open spec fn input_range(s: EditorState, input: TextInputView) -> TextRange {
    match input.range {
        Some(r) => r,
        None => s.selection.range_spec(),
    }
}

/// Literal input (paste, IME) inserts exactly the supplied text: the new source is the
/// old one with the input's range replaced by it, byte for byte.
pub proof fn law_literal_input_inserts_exactly(s: EditorState, input: TextInputView)
    requires
        input.mode == TextInputMode::Literal,
        replace_outcome(s, input).0 is Ok,
    ensures
        ({
            let bytes = encode_utf8(s.document.current.text);
            let range = input_range(s, input);
            encode_utf8(replace_outcome(s, input).1.document.current.text) == bytes.subrange(0, range.start as int)
                + encode_utf8(input.text) + bytes.subrange(range.end as int, bytes.len() as int)
        }),
{
    let bytes = encode_utf8(s.document.current.text);
    let range = input_range(s, input);
    let edits = seq![(TextRange { start: range.start, end: range.end }, input.text)];
    assert(crate::text::sorted_order_upto(edits, 0) =~= Seq::<usize>::empty());
    assert(crate::text::insert_by_start(edits, Seq::<usize>::empty(), 0) =~= seq![0usize]);
    assert(crate::text::sorted_order(edits) =~= seq![0usize]);
    encode_utf8_valid_utf8(s.document.current.text);
    assert(seq![0usize].drop_first() =~= Seq::<usize>::empty());
    crate::text::lemma_apply_edits_valid(bytes, edits);
    let new_bytes = crate::text::apply_edits_bytes(bytes, edits);
    assert(crate::text::splice_from(bytes, edits, Seq::<usize>::empty(), range.end as int) == bytes.subrange(
        range.end as int,
        bytes.len() as int,
    ));
    assert(new_bytes == bytes.subrange(0, range.start as int) + encode_utf8(input.text) + crate::text::splice_from(
        bytes,
        edits,
        Seq::<usize>::empty(),
        range.end as int,
    ));
    assert(new_bytes =~= bytes.subrange(0, range.start as int) + encode_utf8(input.text) + bytes.subrange(
        range.end as int,
        bytes.len() as int,
    ));
    decode_utf8_encode_utf8(new_bytes);
}

/// A refused text input or selection leaves the editor as it was.
pub proof fn law_refusal_changes_nothing(s: EditorState, input: TextInputView, selection: TextSelection)
    ensures
        replace_outcome(s, input).0 is Err ==> replace_outcome(s, input).1 == s,
        selection_outcome(s, selection).0 is Err ==> selection_outcome(s, selection).1 == s,
{
}

/// Literal input without a requested selection leaves a caret right after the text.
pub proof fn law_literal_input_leaves_caret_after_text(s: EditorState, input: TextInputView)
    requires
        input.mode == TextInputMode::Literal,
        input.selection_after is None,
        replace_outcome(s, input).0 is Ok,
    ensures
        ({
            let caret = (input_range(s, input).start + encode_utf8(input.text).len()) as usize;
            replace_outcome(s, input).1.selection == TextSelection::spec_new(caret, caret)
        }),
{
}

/// The editor's directional selection and the document's selection agree: the document
/// holds the one range that the editor's anchor and head span.
pub open spec fn selections_agree(s: EditorState) -> bool {
    s.document.current.selection == (seq![s.selection.range_spec()], 0usize)
}

/// A new editor, and every operation on one, keep its selection and its document's
/// selection in agreement.
pub proof fn law_selections_agree(s: EditorState, input: TextInputView, selection: TextSelection, text: Seq<char>)
    requires
        selections_agree(s),
    ensures
        selections_agree(EditorState { document: fresh_state(text), selection: TextSelection::spec_new(0, 0) }),
        selections_agree(replace_outcome(s, input).1),
        selections_agree(selection_outcome(s, selection).1),
{
    let fresh = EditorState { document: fresh_state(text), selection: TextSelection::spec_new(0, 0) };
    assert(fresh.selection.range_spec() == TextRange { start: 0, end: 0 });
}

/// The standard, platform-independent Hanji editor.
#[derive(Debug)]
pub struct Editor {
    document: Document,
    selection: TextSelection,
}

impl View for Editor {
    type V = EditorState;

    closed spec fn view(&self) -> EditorState {
        EditorState { document: self.document@, selection: self.selection }
    }
}

/// The state an update is measured against.
struct State {
    source: String,
    selection: TextSelection,
}

impl Editor {
    /// The UTF-8 bytes of the source.
    pub open spec fn bytes(self) -> Seq<u8> {
        encode_utf8(self@.document.current.text)
    }

    pub fn new(source: &str) -> (e: Self)
        ensures
            e@ == (EditorState { document: fresh_state(source@), selection: TextSelection::spec_new(0, 0) }),
    {
        Editor { document: Document::new(source), selection: TextSelection::caret(0) }
    }

    pub fn source(&self) -> (s: &str)
        ensures
            s@ == self@.document.current.text,
    {
        self.document.text()
    }

    /// The byte length of the source.
    pub fn len(&self) -> (n: usize)
        ensures
            n == self.bytes().len(),
    {
        self.document.len()
    }

    pub fn is_empty(&self) -> (b: bool)
        ensures
            b == (self@.document.current.text.len() == 0),
    {
        self.document.is_empty()
    }

    pub fn selection(&self) -> (s: TextSelection)
        ensures
            s == self@.selection,
    {
        self.selection
    }

    fn state(&self) -> (s: State)
        ensures
            s.source@ == self@.document.current.text,
            s.selection == self@.selection,
    {
        State { source: self.source().to_owned(), selection: self.selection }
    }

    /// The update since `before`; whether the history changed is known to the caller,
    /// which made the change.
    fn update_since(&self, before: State, history_changed: bool) -> (u: Update)
        ensures
            u@ == (before.source@ != self@.document.current.text, before.selection != self@.selection, history_changed),
    {
        let text_changed = !str_eq(self.source(), before.source.as_str());
        Update::new(text_changed, self.selection != before.selection, history_changed)
    }

    /// Moves the selection; the document keeps its range, the editor its direction.
    pub fn set_selection(&mut self, selection: TextSelection) -> (r: Result<Update, Error>)
        ensures
            selection_outcome(old(self)@, selection).1 == final(self)@,
            reported(old(self)@, selection_outcome(old(self)@, selection), r),
    {
        let before = self.state();
        match self.select(selection) {
            Ok(()) => Ok(self.update_since(before, false)),
            Err(e) => Err(e),
        }
    }

    fn select(&mut self, selection: TextSelection) -> (r: Result<(), Error>)
        ensures
            (r, final(self)@) == selection_outcome(old(self)@, selection),
    {
        let range = selection.range();
        let single = Selection::single(range);
        match self.document.set_selection(single) {
            Ok(()) => {
                self.selection = selection;
                Ok(())
            },
            Err(e) => Err(edit_error(e)),
        }
    }

    fn apply_replacement(&mut self, range: Range<usize>, replacement: String, selection_after: Range<usize>) -> (r: Result<(), Error>)
        requires
            range.start + encode_utf8(replacement@).len() <= usize::MAX,
        ensures
            (r, final(self)@) == replacement_outcome(old(self)@, range, replacement@, selection_after),
            r is Ok ==> final(self)@.document.undo != old(self)@.document.undo,
    {
        let selection = TextSelection::new(selection_after.start, selection_after.end);
        let transaction = Transaction::replace(TextRange::new(range.start, range.end), replacement.as_str())
            .with_selection_after(Selection::single(selection.range()));
        proof {
            assert(transaction@.0 =~= seq![(TextRange { start: range.start, end: range.end }, replacement@)]);
        }
        let ghost old_undo = self@.document.undo;
        match self.document.apply(transaction) {
            Ok(_) => {
                assert(self.document@.undo.len() == old_undo.len() + 1);
                self.selection = selection;
                Ok(())
            },
            Err(e) => Err(edit_error(e)),
        }
    }

    /// Replaces text from a platform text event, running the typing policy for typed
    /// input and inserting literal input as given.
    pub fn replace_text(&mut self, input: TextInput) -> (r: Result<Update, Error>)
        requires
            ({
                let range = match input@.range {
                    Some(x) => x,
                    None => old(self)@.selection.range_spec(),
                };
                &&& range.start + 16 + encode_utf8(input@.text).len() <= usize::MAX
                &&& range.end + 16 + encode_utf8(input@.text).len() <= usize::MAX
                &&& input@.mode == TextInputMode::Typing && range.start == range.end && is_fence_input(input@.text)
                    ==> range.start <= old(self).bytes().len() && is_char_boundary(old(self).bytes(), range.start as int)
            }),
        ensures
            replace_outcome(old(self)@, input@).1 == final(self)@,
            reported(old(self)@, replace_outcome(old(self)@, input@), r),
    {
        let before = self.state();
        let ghost view_in = input@;
        let (mode, text, range, selection_after) = input.into_parts();
        let range = match range {
            Some(r) => r,
            None => self.selection.range(),
        };
        let source_range = Range { start: range.start, end: range.end };
        let typing = match mode {
            TextInputMode::Typing => true,
            TextInputMode::Literal => false,
        };
        if typing {
            if let Some(offset) = marker_skip_offset(self.source(), &source_range, text.as_str()) {
                return match self.select(TextSelection::caret(offset)) {
                    Ok(()) => Ok(self.update_since(before, false)),
                    Err(e) => Err(e),
                };
            }
            if let Some((plan_range, replacement, plan_after)) = marker_autocomplete_edit(self.source(), &source_range, text.as_str()) {
                return match self.apply_replacement(plan_range, replacement, plan_after) {
                    Ok(()) => Ok(self.update_since(before, true)),
                    Err(e) => Err(e),
                };
            }
        }
        let text_len = text.as_str().as_bytes().len();
        let after = match selection_after {
            Some(s) => s,
            None => TextSelection::caret(range.start + text_len),
        };
        match self.apply_replacement(source_range, text, Range { start: after.anchor(), end: after.head() }) {
            Ok(()) => Ok(self.update_since(before, true)),
            Err(e) => Err(e),
        }
    }

    pub fn can_undo(&self) -> (b: bool)
        ensures
            b == (self@.document.undo.len() > 0),
    {
        self.document.can_undo()
    }

    pub fn can_redo(&self) -> (b: bool)
        ensures
            b == (self@.document.redo.len() > 0),
    {
        self.document.can_redo()
    }

    pub fn line_count(&self) -> (n: usize)
        ensures
            n == line_starts(self.bytes()).len(),
    {
        self.document.line_count()
    }

    pub fn line_range(&self, line_index: usize) -> (r: Option<TextRange>)
        ensures
            r == line_range_of(self.bytes(), line_index as int),
    {
        self.document.line_range(line_index)
    }

    pub fn line_index_at_offset(&self, offset: usize) -> (r: Result<usize, Error>)
        ensures
            match range_error(self.bytes(), TextRange::caret_spec(offset)) {
                Some(e) => r == Err::<usize, Error>(error_of_edit(e)),
                None => r is Ok && is_line_of_offset(self.bytes(), offset as int, r->Ok_0 as int),
            },
    {
        match self.document.line_index_at_offset(offset) {
            Ok(i) => Ok(i),
            Err(e) => Err(edit_error(e)),
        }
    }

    pub fn position_at_offset(&self, offset: usize) -> (r: Result<TextPosition, Error>)
        ensures
            match range_error(self.bytes(), TextRange::caret_spec(offset)) {
                Some(e) => r == Err::<TextPosition, Error>(error_of_edit(e)),
                None => {
                    &&& r is Ok
                    &&& is_line_of_offset(self.bytes(), offset as int, r->Ok_0.line as int)
                    &&& r->Ok_0.column == chars_between(
                        self@.document.current.text,
                        line_starts(self.bytes())[r->Ok_0.line as int] as int,
                        offset as int,
                    ).len()
                },
            },
    {
        match self.document.position_at_offset(offset) {
            Ok(p) => Ok(p),
            Err(e) => Err(edit_error(e)),
        }
    }

    pub fn offset_at_position(&self, position: TextPosition) -> (r: Result<usize, Error>)
        ensures
            match line_range_of(self.bytes(), position.line as int) {
                None => r == Err::<usize, Error>(Error::InvalidRange),
                Some(lr) => {
                    let line_chars = chars_between(self@.document.current.text, lr.start as int, lr.end as int);
                    if position.column <= line_chars.len() {
                        r == Ok::<usize, Error>(
                            (lr.start + encode_utf8(line_chars.take(position.column as int)).len()) as usize,
                        )
                    } else {
                        r == Err::<usize, Error>(Error::InvalidRange)
                    }
                },
            },
    {
        match self.document.offset_at_position(position) {
            Ok(o) => Ok(o),
            Err(e) => Err(edit_error(e)),
        }
    }

    pub fn nearest_grapheme_offset(&self, offset: usize) -> (r: Result<usize, Error>)
        ensures
            offset > self.bytes().len() ==> r == Err::<usize, Error>(Error::InvalidRange),
            offset <= self.bytes().len() ==> r == Ok::<usize, Error>(
                nearest_bound(grapheme_bounds(self@.document.current.text), offset as int)->Some_0,
            ),
            offset <= self.bytes().len() ==> bounds_fit(self.bytes(), grapheme_bounds(self@.document.current.text))
                && r->Ok_0 <= self.bytes().len() && is_char_boundary(self.bytes(), r->Ok_0 as int),
    {
        match self.document.nearest_grapheme_offset(offset) {
            Ok(o) => Ok(o),
            Err(e) => Err(edit_error(e)),
        }
    }

    pub fn previous_grapheme_offset(&self, offset: usize) -> (r: Result<Option<usize>, Error>)
        ensures
            match range_error(self.bytes(), TextRange::caret_spec(offset)) {
                Some(e) => r == Err::<Option<usize>, Error>(error_of_edit(e)),
                None => {
                    &&& r == Ok::<Option<usize>, Error>(last_below(grapheme_bounds(self@.document.current.text), offset as int))
                    &&& bounds_fit(self.bytes(), grapheme_bounds(self@.document.current.text))
                    &&& (r == Ok::<Option<usize>, Error>(None) <==> offset == 0)
                    &&& r matches Ok(Some(p)) ==> p < offset && is_char_boundary(self.bytes(), p as int)
                },
            },
    {
        match self.document.previous_grapheme_offset(offset) {
            Ok(o) => Ok(o),
            Err(e) => Err(edit_error(e)),
        }
    }

    pub fn next_grapheme_offset(&self, offset: usize) -> (r: Result<Option<usize>, Error>)
        ensures
            match range_error(self.bytes(), TextRange::caret_spec(offset)) {
                Some(e) => r == Err::<Option<usize>, Error>(error_of_edit(e)),
                None => {
                    &&& r == Ok::<Option<usize>, Error>(first_above(grapheme_bounds(self@.document.current.text), offset as int))
                    &&& bounds_fit(self.bytes(), grapheme_bounds(self@.document.current.text))
                    &&& (r == Ok::<Option<usize>, Error>(None) <==> offset == self.bytes().len())
                    &&& r matches Ok(Some(q)) ==> offset < q <= self.bytes().len() && is_char_boundary(self.bytes(), q as int)
                },
            },
    {
        match self.document.next_grapheme_offset(offset) {
            Ok(o) => Ok(o),
            Err(e) => Err(edit_error(e)),
        }
    }

    pub fn previous_word_offset(&self, offset: usize) -> (r: Result<Option<usize>, Error>)
        ensures
            match range_error(self.bytes(), TextRange::caret_spec(offset)) {
                Some(e) => r == Err::<Option<usize>, Error>(error_of_edit(e)),
                None => r == Ok::<Option<usize>, Error>(last_word_start_below(word_spans(self@.document.current.text), offset as int)),
            },
    {
        match self.document.previous_word_offset(offset) {
            Ok(o) => Ok(o),
            Err(e) => Err(edit_error(e)),
        }
    }

    pub fn next_word_offset(&self, offset: usize) -> (r: Result<Option<usize>, Error>)
        ensures
            match range_error(self.bytes(), TextRange::caret_spec(offset)) {
                Some(e) => r == Err::<Option<usize>, Error>(error_of_edit(e)),
                None => r == Ok::<Option<usize>, Error>(first_word_end_above(word_spans(self@.document.current.text), offset as int)),
            },
    {
        match self.document.next_word_offset(offset) {
            Ok(o) => Ok(o),
            Err(e) => Err(edit_error(e)),
        }
    }

    pub fn word_range_at_offset(&self, offset: usize) -> (r: Result<Option<TextRange>, Error>)
        ensures
            match range_error(self.bytes(), TextRange::caret_spec(offset)) {
                Some(e) => r == Err::<Option<TextRange>, Error>(error_of_edit(e)),
                None => r == Ok::<Option<TextRange>, Error>(first_word_holding(word_spans(self@.document.current.text), offset as int)),
            },
    {
        match self.document.word_range_at_offset(offset) {
            Ok(o) => Ok(o),
            Err(e) => Err(edit_error(e)),
        }
    }
}

} // verus!
