//! A document: a source buffer, its selection, and its undo and redo history.
use vstd::prelude::*;
use vstd::utf8::*;
use crate::text::{
    TextBuffer, TextRange, TextPosition, EditError, EditView, edits_error, apply_edits_bytes,
    line_starts, line_range_of, is_line_of_offset, range_error,
};
use crate::selection::{Selection, selection_error, caret_view, lemma_caret_at_start_fits};
use crate::transaction::Transaction;
use crate::utf8::chars_between;

verus! {

broadcast use vstd::utf8::group_utf8_lib;

/// The text and selection of a document at one moment.
pub struct Snapshot {
    pub text: Seq<char>,
    pub selection: (Seq<TextRange>, usize),
}

/// One applied change: the snapshots before and after it.
pub struct Step {
    pub before: Snapshot,
    pub after: Snapshot,
}

/// The abstract state of a document.
pub struct DocumentState {
    pub current: Snapshot,
    pub undo: Seq<Step>,
    pub redo: Seq<Step>,
}

#[derive(Debug, Clone, Copy, PartialEq, Eq, Structural)]
pub enum DocumentChange {
    Applied,
    Undone,
    Redone,
}

/// A fresh document state for `text`: a caret at the start and no history.
pub open spec fn fresh_state(text: Seq<char>) -> DocumentState {
    DocumentState {
        current: Snapshot { text, selection: caret_view(0) },
        undo: Seq::empty(),
        redo: Seq::empty(),
    }
}

/// Applying a transaction: the edits are applied against the original offsets, then the
/// selection after it (the transaction's own, or else the current one) is checked
/// against the new text. On success the change is recorded for undo and the redo
/// history is cleared; on an error nothing changes.
pub open spec fn apply_step(
    s: DocumentState,
    edits: Seq<EditView>,
    selection_after: Option<(Seq<TextRange>, usize)>,
) -> (Result<DocumentChange, EditError>, DocumentState) {
    let bytes = encode_utf8(s.current.text);
    match edits_error(bytes, edits) {
        Some(e) => (Err(e), s),
        None => {
            let new_bytes = apply_edits_bytes(bytes, edits);
            let selection = match selection_after {
                Some(sel) => sel,
                None => s.current.selection,
            };
            match selection_error(new_bytes, selection.0) {
                Some(e) => (Err(e), s),
                None => {
                    let after = Snapshot { text: decode_utf8(new_bytes), selection };
                    (
                        Ok(DocumentChange::Applied),
                        DocumentState {
                            current: after,
                            undo: s.undo.push(Step { before: s.current, after }),
                            redo: Seq::empty(),
                        },
                    )
                },
            }
        },
    }
}

/// Undoing: the latest step is reverted and moves to the redo history.
pub open spec fn undo_step(s: DocumentState) -> (Option<DocumentChange>, DocumentState) {
    if s.undo.len() == 0 {
        (None, s)
    } else {
        let step = s.undo.last();
        (
            Some(DocumentChange::Undone),
            DocumentState { current: step.before, undo: s.undo.drop_last(), redo: s.redo.push(step) },
        )
    }
}

/// Redoing: the latest undone step is reapplied and moves back to the undo history.
pub open spec fn redo_step(s: DocumentState) -> (Option<DocumentChange>, DocumentState) {
    if s.redo.len() == 0 {
        (None, s)
    } else {
        let step = s.redo.last();
        (
            Some(DocumentChange::Redone),
            DocumentState { current: step.after, undo: s.undo.push(step), redo: s.redo.drop_last() },
        )
    }
}

/// Replacing the selection after checking it against the text.
pub open spec fn set_selection_step(s: DocumentState, selection: (Seq<TextRange>, usize)) -> (
    Result<(), EditError>,
    DocumentState,
) {
    match selection_error(encode_utf8(s.current.text), selection.0) {
        Some(e) => (Err(e), s),
        None => (
            Ok(()),
            DocumentState {
                current: Snapshot { text: s.current.text, selection },
                undo: s.undo,
                redo: s.redo,
            },
        ),
    }
}

/// The texts of a history line up: each recorded step starts from the text that the
/// step before it left, the latest undo step left the given text, and the latest redo
/// step starts from it.
pub open spec fn history_lines_up(text: Seq<char>, undo: Seq<Step>, redo: Seq<Step>) -> bool {
    &&& forall|i: int, j: int|
        #![trigger undo[i], undo[j]]
        0 <= i && j == i + 1 && j < undo.len() ==> undo[i].after.text == undo[j].before.text
    &&& undo.len() > 0 ==> undo.last().after.text == text
    &&& forall|i: int, j: int|
        #![trigger redo[i], redo[j]]
        0 <= i && j == i + 1 && j < redo.len() ==> redo[i].before.text == redo[j].after.text
    &&& redo.len() > 0 ==> redo.last().before.text == text
}

/// The history of a state lines up with its current text.
pub open spec fn history_coherent(s: DocumentState) -> bool {
    history_lines_up(s.current.text, s.undo, s.redo)
}

/// The selection of a snapshot fits its text.
pub open spec fn snapshot_valid(s: Snapshot) -> bool {
    selection_error(encode_utf8(s.text), s.selection.0) is None
}

/// Every snapshot of a state, current or recorded, has a selection that fits its text.
pub open spec fn state_valid(s: DocumentState) -> bool {
    &&& snapshot_valid(s.current)
    &&& forall|i: int| 0 <= i < s.undo.len() ==> snapshot_valid(#[trigger] s.undo[i].before)
        && snapshot_valid(s.undo[i].after)
    &&& forall|i: int| 0 <= i < s.redo.len() ==> snapshot_valid(#[trigger] s.redo[i].before)
        && snapshot_valid(s.redo[i].after)
}

#[derive(Debug, PartialEq, Eq)]
struct HistoryEntry {
    before_text: TextBuffer,
    before_selection: Selection,
    after_text: TextBuffer,
    after_selection: Selection,
}

impl HistoryEntry {
    spec fn step(self) -> Step {
        Step {
            before: Snapshot { text: self.before_text@, selection: self.before_selection@ },
            after: Snapshot { text: self.after_text@, selection: self.after_selection@ },
        }
    }

    spec fn valid(self) -> bool {
        &&& selection_error(self.before_text.bytes(), self.before_selection@.0) is None
        &&& selection_error(self.after_text.bytes(), self.after_selection@.0) is None
    }
}

spec fn history_view(v: Seq<HistoryEntry>) -> Seq<Step> {
    v.map_values(|e: HistoryEntry| e.step())
}

/// A text buffer with a selection and an undo history.
#[derive(Debug, PartialEq, Eq)]
pub struct Document {
    buffer: TextBuffer,
    selection: Selection,
    undo_stack: Vec<HistoryEntry>,
    redo_stack: Vec<HistoryEntry>,
}

impl View for Document {
    type V = DocumentState;

    closed spec fn view(&self) -> DocumentState {
        DocumentState {
            current: Snapshot { text: self.buffer@, selection: self.selection@ },
            undo: history_view(self.undo_stack@),
            redo: history_view(self.redo_stack@),
        }
    }
}

impl Document {
    #[verifier::type_invariant]
    spec fn consistent(self) -> bool {
        &&& selection_error(self.buffer.bytes(), self.selection@.0) is None
        &&& forall|i: int| 0 <= i < self.undo_stack@.len() ==> (#[trigger] self.undo_stack@[i]).valid()
        &&& forall|i: int| 0 <= i < self.redo_stack@.len() ==> (#[trigger] self.redo_stack@[i]).valid()
        &&& history_lines_up(self.buffer@, history_view(self.undo_stack@), history_view(self.redo_stack@))
    }

    /// The UTF-8 bytes of the current text.
    pub open spec fn bytes(self) -> Seq<u8> {
        encode_utf8(self@.current.text)
    }

    pub fn new(text: &str) -> (d: Self)
        ensures
            d@ == fresh_state(text@),
            history_coherent(d@),
    {
        let buffer = TextBuffer::new(text);
        let selection = Selection::caret(0);
        proof {
            lemma_caret_at_start_fits(buffer.bytes());
        }
        let d = Document { buffer, selection, undo_stack: Vec::new(), redo_stack: Vec::new() };
        assert(d@.undo =~= Seq::<Step>::empty());
        assert(d@.redo =~= Seq::<Step>::empty());
        d
    }

    pub fn text(&self) -> (s: &str)
        ensures
            s@ == self@.current.text,
    {
        self.buffer.as_str()
    }

    /// The byte length of the text.
    pub fn len(&self) -> (n: usize)
        ensures
            n == self.bytes().len(),
    {
        self.buffer.len()
    }

    pub fn is_empty(&self) -> (b: bool)
        ensures
            b == (self@.current.text.len() == 0),
    {
        self.buffer.is_empty()
    }

    pub fn line_count(&self) -> (n: usize)
        ensures
            n == line_starts(self.bytes()).len(),
    {
        self.buffer.line_count()
    }

    pub fn line_range(&self, line_index: usize) -> (r: Option<TextRange>)
        ensures
            r == line_range_of(self.bytes(), line_index as int),
    {
        self.buffer.line_range(line_index)
    }

    pub fn line_index_at_offset(&self, offset: usize) -> (r: Result<usize, EditError>)
        ensures
            match range_error(self.bytes(), TextRange::caret_spec(offset)) {
                Some(e) => r == Err::<usize, EditError>(e),
                None => r is Ok && is_line_of_offset(self.bytes(), offset as int, r->Ok_0 as int),
            },
    {
        self.buffer.line_index_at_offset(offset)
    }

    pub fn position_at_offset(&self, offset: usize) -> (r: Result<TextPosition, EditError>)
        ensures
            match range_error(self.bytes(), TextRange::caret_spec(offset)) {
                Some(e) => r == Err::<TextPosition, EditError>(e),
                None => {
                    &&& r is Ok
                    &&& is_line_of_offset(self.bytes(), offset as int, r->Ok_0.line as int)
                    &&& r->Ok_0.column == chars_between(
                        self@.current.text,
                        line_starts(self.bytes())[r->Ok_0.line as int] as int,
                        offset as int,
                    ).len()
                },
            },
    {
        self.buffer.position_at_offset(offset)
    }

    pub fn offset_at_position(&self, position: TextPosition) -> (r: Result<usize, EditError>)
        ensures
            match line_range_of(self.bytes(), position.line as int) {
                None => r == Err::<usize, EditError>(EditError::InvalidRange),
                Some(lr) => {
                    let line_chars = chars_between(self@.current.text, lr.start as int, lr.end as int);
                    if position.column <= line_chars.len() {
                        r == Ok::<usize, EditError>(
                            (lr.start + encode_utf8(line_chars.take(position.column as int)).len()) as usize,
                        )
                    } else {
                        r == Err::<usize, EditError>(EditError::InvalidRange)
                    }
                },
            },
    {
        self.buffer.offset_at_position(position)
    }

    pub fn selection(&self) -> (s: &Selection)
        ensures
            s@ == self@.current.selection,
    {
        &self.selection
    }

    /// Swaps every part out, leaving an empty document behind.
    fn take_parts(&mut self) -> (r: (TextBuffer, Selection, Vec<HistoryEntry>, Vec<HistoryEntry>))
        ensures
            r.0@ == old(self)@.current.text,
            r.1@ == old(self)@.current.selection,
            history_view(r.2@) == old(self)@.undo,
            history_view(r.3@) == old(self)@.redo,
            selection_error(r.0.bytes(), r.1@.0) is None,
            forall|i: int| 0 <= i < r.2@.len() ==> (#[trigger] r.2@[i]).valid(),
            forall|i: int| 0 <= i < r.3@.len() ==> (#[trigger] r.3@[i]).valid(),
            history_coherent(old(self)@),
    {
        proof {
            use_type_invariant(&*self);
        }
        let mut taken = Document::new("");
        std::mem::swap(&mut taken, self);
        let Document { buffer, selection, undo_stack, redo_stack } = taken;
        (buffer, selection, undo_stack, redo_stack)
    }

    pub fn set_selection(&mut self, selection: Selection) -> (r: Result<(), EditError>)
        ensures
            (r, final(self)@) == set_selection_step(old(self)@, selection@),
            history_coherent(final(self)@),
    {
        proof {
            use_type_invariant(&*self);
        }
        selection.validate_for_buffer(&self.buffer)?;
        let (buffer, _, undo, redo) = self.take_parts();
        *self = Document { buffer, selection, undo_stack: undo, redo_stack: redo };
        Ok(())
    }

    /// Replaces the text, puts a caret at the start, and forgets the history.
    pub fn replace_all(&mut self, text: &str)
        ensures
            final(self)@ == fresh_state(text@),
            history_coherent(final(self)@),
    {
        *self = Document::new(text);
    }

    pub fn apply(&mut self, transaction: Transaction) -> (r: Result<DocumentChange, EditError>)
        ensures
            (r, final(self)@) == apply_step(old(self)@, transaction@.0, transaction@.1),
            history_coherent(final(self)@),
    {
        proof {
            use_type_invariant(&*self);
        }
        let ghost view_t = transaction@;
        let (edits, selection_after) = transaction.into_parts();
        let mut after_text = self.buffer.clone();
        after_text.apply_edits(edits.as_slice())?;
        let selection_after = match selection_after {
            Some(s) => s,
            None => self.selection.clone(),
        };
        selection_after.validate_for_buffer(&after_text)?;
        proof {
            encode_utf8_decode_utf8(after_text@);
        }
        let entry = HistoryEntry {
            before_text: self.buffer.clone(),
            before_selection: self.selection.clone(),
            after_text: after_text.clone(),
            after_selection: selection_after.clone(),
        };
        let (_, _, mut undo, _) = self.take_parts();
        let ghost old_undo = undo@;
        undo.push(entry);
        proof {
            assert(history_view(undo@) =~= history_view(old_undo).push(entry.step()));
        }
        let d = Document {
            buffer: after_text,
            selection: selection_after,
            undo_stack: undo,
            redo_stack: Vec::new(),
        };
        assert(d@.redo =~= Seq::<Step>::empty());
        *self = d;
        Ok(DocumentChange::Applied)
    }

    pub fn undo(&mut self) -> (r: Option<DocumentChange>)
        ensures
            (r, final(self)@) == undo_step(old(self)@),
            history_coherent(final(self)@),
            r is Some ==> redo_step(final(self)@).1.current.text == old(self)@.current.text,
    {
        proof {
            use_type_invariant(&*self);
            if self@.undo.len() > 0 {
                law_redo_after_undo_restores_text(self@);
            }
        }
        if self.undo_stack.len() == 0 {
            return None;
        }
        let (_, _, mut undo, mut redo) = self.take_parts();
        let ghost old_undo = undo@;
        let ghost old_redo = redo@;
        let entry = match undo.pop() {
            Some(e) => e,
            None => {
                return None;
            },
        };
        assert(old_undo[old_undo.len() - 1].valid());
        let buffer = entry.before_text.clone();
        let selection = entry.before_selection.clone();
        redo.push(entry);
        proof {
            assert(history_view(undo@) =~= history_view(old_undo).drop_last());
            assert(history_view(redo@) =~= history_view(old_redo).push(entry.step()));
        }
        *self = Document { buffer, selection, undo_stack: undo, redo_stack: redo };
        Some(DocumentChange::Undone)
    }

    pub fn redo(&mut self) -> (r: Option<DocumentChange>)
        ensures
            (r, final(self)@) == redo_step(old(self)@),
            history_coherent(final(self)@),
    {
        proof {
            use_type_invariant(&*self);
        }
        if self.redo_stack.len() == 0 {
            return None;
        }
        let (_, _, mut undo, mut redo) = self.take_parts();
        let ghost old_undo = undo@;
        let ghost old_redo = redo@;
        let entry = match redo.pop() {
            Some(e) => e,
            None => {
                return None;
            },
        };
        assert(old_redo[old_redo.len() - 1].valid());
        let buffer = entry.after_text.clone();
        let selection = entry.after_selection.clone();
        undo.push(entry);
        proof {
            assert(history_view(redo@) =~= history_view(old_redo).drop_last());
            assert(history_view(undo@) =~= history_view(old_undo).push(entry.step()));
        }
        *self = Document { buffer, selection, undo_stack: undo, redo_stack: redo };
        Some(DocumentChange::Redone)
    }

    pub fn can_undo(&self) -> (b: bool)
        ensures
            b == (self@.undo.len() > 0),
    {
        self.undo_stack.len() != 0
    }

    pub fn can_redo(&self) -> (b: bool)
        ensures
            b == (self@.redo.len() > 0),
    {
        self.redo_stack.len() != 0
    }
}

} // verus!

verus! {

/// Undoing a successful transaction restores the text and selection from before it,
/// and leaves the undo history as it was.
pub proof fn law_undo_reverts_apply(
    s: DocumentState,
    edits: Seq<EditView>,
    selection_after: Option<(Seq<TextRange>, usize)>,
)
    requires
        apply_step(s, edits, selection_after).0 is Ok,
    ensures
        undo_step(apply_step(s, edits, selection_after).1).0 == Some(DocumentChange::Undone),
        undo_step(apply_step(s, edits, selection_after).1).1.current == s.current,
        undo_step(apply_step(s, edits, selection_after).1).1.undo == s.undo,
{
    assert(s.undo.push(apply_step(s, edits, selection_after).1.undo.last()).drop_last() =~= s.undo);
}

/// Redoing right after an undo returns to exactly the state that the undone
/// transaction produced.
pub proof fn law_redo_after_undo_reapplies(
    s: DocumentState,
    edits: Seq<EditView>,
    selection_after: Option<(Seq<TextRange>, usize)>,
)
    requires
        apply_step(s, edits, selection_after).0 is Ok,
    ensures
        redo_step(undo_step(apply_step(s, edits, selection_after).1).1).0 == Some(DocumentChange::Redone),
        redo_step(undo_step(apply_step(s, edits, selection_after).1).1).1 == apply_step(
            s,
            edits,
            selection_after,
        ).1,
{
    let s1 = apply_step(s, edits, selection_after).1;
    let s2 = undo_step(s1).1;
    let s3 = redo_step(s2).1;
    assert(s2.undo =~= s.undo);
    assert(s3.undo =~= s1.undo);
    assert(s3.redo =~= s1.redo);
}

/// A successful transaction clears the redo history; a failed one changes nothing.
pub proof fn law_apply_clears_redo_or_changes_nothing(
    s: DocumentState,
    edits: Seq<EditView>,
    selection_after: Option<(Seq<TextRange>, usize)>,
)
    ensures
        apply_step(s, edits, selection_after).0 is Ok ==> apply_step(s, edits, selection_after).1.redo.len() == 0,
        apply_step(s, edits, selection_after).0 is Err ==> apply_step(s, edits, selection_after).1 == s,
{
}

/// Undo followed by redo, and redo followed by undo, keep both histories intact.
pub proof fn law_undo_redo_inverse(s: DocumentState)
    ensures
        undo_step(s).0 is Some ==> redo_step(undo_step(s).1).1.undo == s.undo
            && redo_step(undo_step(s).1).1.redo == s.redo
            && redo_step(undo_step(s).1).1.current == s.undo.last().after,
        redo_step(s).0 is Some ==> undo_step(redo_step(s).1).1.undo == s.undo
            && undo_step(redo_step(s).1).1.redo == s.redo
            && undo_step(redo_step(s).1).1.current == s.redo.last().before,
{
    if undo_step(s).0 is Some {
        assert(s.undo.drop_last().push(s.undo.last()) =~= s.undo);
        assert(s.redo.push(s.undo.last()).drop_last() =~= s.redo);
    }
    if redo_step(s).0 is Some {
        assert(s.redo.drop_last().push(s.redo.last()) =~= s.redo);
        assert(s.undo.push(s.redo.last()).drop_last() =~= s.undo);
    }
}

/// Every operation keeps each selection, current or recorded, within its text.
pub proof fn law_operations_keep_selections_valid(
    s: DocumentState,
    edits: Seq<EditView>,
    selection_after: Option<(Seq<TextRange>, usize)>,
    selection: (Seq<TextRange>, usize),
    text: Seq<char>,
)
    requires
        state_valid(s),
    ensures
        state_valid(apply_step(s, edits, selection_after).1),
        state_valid(undo_step(s).1),
        state_valid(redo_step(s).1),
        state_valid(set_selection_step(s, selection).1),
        state_valid(fresh_state(text)),
{
    let bytes = encode_utf8(s.current.text);
    if apply_step(s, edits, selection_after).0 is Ok {
        crate::text::lemma_apply_edits_valid(bytes, edits);
        let new_bytes = apply_edits_bytes(bytes, edits);
        decode_utf8_encode_utf8(new_bytes);
        let s1 = apply_step(s, edits, selection_after).1;
        assert forall|i: int| 0 <= i < s1.undo.len() implies snapshot_valid(#[trigger] s1.undo[i].before)
            && snapshot_valid(s1.undo[i].after) by {
            if i < s.undo.len() {
                assert(s1.undo[i] == s.undo[i]);
            }
        }
    }
    if undo_step(s).0 is Some {
        let s1 = undo_step(s).1;
        assert(snapshot_valid(s.undo[s.undo.len() - 1].before));
        assert forall|i: int| 0 <= i < s1.redo.len() implies snapshot_valid(#[trigger] s1.redo[i].before)
            && snapshot_valid(s1.redo[i].after) by {
            if i < s.redo.len() {
                assert(s1.redo[i] == s.redo[i]);
            } else {
                assert(s1.redo[i] == s.undo[s.undo.len() - 1]);
            }
        }
        assert forall|i: int| 0 <= i < s1.undo.len() implies snapshot_valid(#[trigger] s1.undo[i].before)
            && snapshot_valid(s1.undo[i].after) by {
            assert(s1.undo[i] == s.undo[i]);
        }
    }
    if redo_step(s).0 is Some {
        let s1 = redo_step(s).1;
        assert(snapshot_valid(s.redo[s.redo.len() - 1].before));
        assert(snapshot_valid(s.redo[s.redo.len() - 1].after));
        assert forall|i: int| 0 <= i < s1.undo.len() implies snapshot_valid(#[trigger] s1.undo[i].before)
            && snapshot_valid(s1.undo[i].after) by {
            if i < s.undo.len() {
                assert(s1.undo[i] == s.undo[i]);
            } else {
                assert(s1.undo[i] == s.redo[s.redo.len() - 1]);
            }
        }
        assert forall|i: int| 0 <= i < s1.redo.len() implies snapshot_valid(#[trigger] s1.redo[i].before)
            && snapshot_valid(s1.redo[i].after) by {
            assert(s1.redo[i] == s.redo[i]);
        }
    }
    lemma_caret_at_start_fits(encode_utf8(text));
}


/// Every operation keeps the history lined up with the text: each recorded step starts
/// where the one before it ended, and the current text is where the undo history ends
/// and the redo history starts.
pub proof fn law_operations_keep_history_coherent(
    s: DocumentState,
    edits: Seq<EditView>,
    selection_after: Option<(Seq<TextRange>, usize)>,
    selection: (Seq<TextRange>, usize),
    text: Seq<char>,
)
    requires
        history_coherent(s),
    ensures
        history_coherent(apply_step(s, edits, selection_after).1),
        history_coherent(undo_step(s).1),
        history_coherent(redo_step(s).1),
        history_coherent(set_selection_step(s, selection).1),
        history_coherent(fresh_state(text)),
{
    if apply_step(s, edits, selection_after).0 is Ok {
        let s1 = apply_step(s, edits, selection_after).1;
        assert forall|i: int, j: int|
            #![trigger s1.undo[i], s1.undo[j]]
            0 <= i && j == i + 1 && j < s1.undo.len() implies s1.undo[i].after.text == s1.undo[j].before.text by {
            if j < s.undo.len() {
                assert(s1.undo[i] == s.undo[i] && s1.undo[j] == s.undo[j]);
            } else {
                assert(s1.undo[i] == s.undo.last());
            }
        }
        assert(history_lines_up(s1.current.text, s1.undo, s1.redo));
    }
    if undo_step(s).0 is Some {
        let s1 = undo_step(s).1;
        let n = s.undo.len() as int;
        assert forall|i: int, j: int|
            #![trigger s1.undo[i], s1.undo[j]]
            0 <= i && j == i + 1 && j < s1.undo.len() implies s1.undo[i].after.text == s1.undo[j].before.text by {
            assert(s1.undo[i] == s.undo[i] && s1.undo[j] == s.undo[j]);
        }
        if n >= 2 {
            assert(s.undo[n - 2].after.text == s.undo[n - 1].before.text);
            assert(s1.undo.last() == s.undo[n - 2]);
        }
        assert forall|i: int, j: int|
            #![trigger s1.redo[i], s1.redo[j]]
            0 <= i && j == i + 1 && j < s1.redo.len() implies s1.redo[i].before.text == s1.redo[j].after.text by {
            if j < s.redo.len() {
                assert(s1.redo[i] == s.redo[i] && s1.redo[j] == s.redo[j]);
            } else {
                assert(s1.redo[i] == s.redo.last());
                assert(s1.redo[j] == s.undo.last());
            }
        }
        assert(history_lines_up(s1.current.text, s1.undo, s1.redo));
    }
    if redo_step(s).0 is Some {
        let s1 = redo_step(s).1;
        let n = s.redo.len() as int;
        assert forall|i: int, j: int|
            #![trigger s1.redo[i], s1.redo[j]]
            0 <= i && j == i + 1 && j < s1.redo.len() implies s1.redo[i].before.text == s1.redo[j].after.text by {
            assert(s1.redo[i] == s.redo[i] && s1.redo[j] == s.redo[j]);
        }
        if n >= 2 {
            assert(s.redo[n - 2].before.text == s.redo[n - 1].after.text);
            assert(s1.redo.last() == s.redo[n - 2]);
        }
        assert forall|i: int, j: int|
            #![trigger s1.undo[i], s1.undo[j]]
            0 <= i && j == i + 1 && j < s1.undo.len() implies s1.undo[i].after.text == s1.undo[j].before.text by {
            if j < s.undo.len() {
                assert(s1.undo[i] == s.undo[i] && s1.undo[j] == s.undo[j]);
            } else {
                assert(s1.undo[i] == s.undo.last());
                assert(s1.undo[j] == s.redo.last());
            }
        }
        assert(history_lines_up(s1.current.text, s1.undo, s1.redo));
    }
}

/// Redo after any undo gives back the text that the undo took away, and both
/// histories as they were.
pub proof fn law_redo_after_undo_restores_text(s: DocumentState)
    requires
        history_coherent(s),
        undo_step(s).0 is Some,
    ensures
        redo_step(undo_step(s).1).0 == Some(DocumentChange::Redone),
        redo_step(undo_step(s).1).1.current.text == s.current.text,
        redo_step(undo_step(s).1).1.undo == s.undo,
        redo_step(undo_step(s).1).1.redo == s.redo,
{
    law_undo_redo_inverse(s);
}

} // verus!
