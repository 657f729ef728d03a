//! A group of edits applied together, with the selection to show afterwards.
use vstd::prelude::*;
use vstd::utf8::*;
use crate::text::{TextEdit, TextRange, EditView, edit_views};
use crate::selection::{Selection, caret_view};

verus! {

#[derive(Debug, PartialEq, Eq)]
pub struct Transaction {
    edits: Vec<TextEdit>,
    selection_after: Option<Selection>,
}

/// The view of an optional selection.
pub open spec fn option_selection_view(s: Option<Selection>) -> Option<(Seq<TextRange>, usize)> {
    match s {
        Some(sel) => Some(sel@),
        None => None,
    }
}

impl View for Transaction {
    /// The edits, and the selection to install once they are applied (if any).
    type V = (Seq<EditView>, Option<(Seq<TextRange>, usize)>);

    closed spec fn view(&self) -> (Seq<EditView>, Option<(Seq<TextRange>, usize)>) {
        (edit_views(self.edits@), option_selection_view(self.selection_after))
    }
}

/// The caret that follows the text an edit inserts.
pub open spec fn caret_after_edit(edit: EditView) -> usize {
    (edit.0.start + encode_utf8(edit.1).len()) as usize
}

impl Transaction {
    pub fn new(edits: Vec<TextEdit>, selection_after: Option<Selection>) -> (t: Self)
        ensures
            t@ == (edit_views(edits@), option_selection_view(selection_after)),
    {
        Transaction { edits, selection_after }
    }

    /// One edit, followed by a caret right after the inserted text.
    pub fn single(edit: TextEdit) -> (t: Self)
        requires
            edit.range.start + encode_utf8(edit.text@).len() <= usize::MAX,
        ensures
            t@ == (seq![(edit.range, edit.text@)], Some(caret_view(caret_after_edit((edit.range, edit.text@))))),
    {
        let caret = edit.range.start + edit.text.as_str().as_bytes().len();
        let selection_after = Selection::caret(caret);
        let mut edits: Vec<TextEdit> = Vec::new();
        edits.push(edit);
        let t = Transaction { edits, selection_after: Some(selection_after) };
        assert(t@.0 =~= seq![(edit.range, edit.text@)]);
        t
    }

    pub fn insert(offset: usize, text: &str) -> (t: Self)
        requires
            offset + encode_utf8(text@).len() <= usize::MAX,
        ensures
            t@.0.len() == 1,
            t@.0[0] == (TextRange::caret_spec(offset), text@),
            t@.1 == Some(caret_view((offset + encode_utf8(text@).len()) as usize)),
    {
        Transaction::single(TextEdit::insert(offset, text))
    }

    pub fn replace(range: TextRange, text: &str) -> (t: Self)
        requires
            range.start + encode_utf8(text@).len() <= usize::MAX,
        ensures
            t@.0.len() == 1,
            t@.0[0] == (range, text@),
            t@.1 == Some(caret_view((range.start + encode_utf8(text@).len()) as usize)),
    {
        Transaction::single(TextEdit::replace(range, text))
    }

    pub fn with_selection_after(self, selection: Selection) -> (t: Self)
        ensures
            t@ == (self@.0, Some(selection@)),
    {
        Transaction { edits: self.edits, selection_after: Some(selection) }
    }

    pub fn edits(&self) -> (r: &[TextEdit])
        ensures
            edit_views(r@) == self@.0,
    {
        self.edits.as_slice()
    }

    pub fn selection_after(&self) -> (r: Option<&Selection>)
        ensures
            match r {
                Some(s) => self@.1 == Some(s@),
                None => self@.1 is None,
            },
    {
        match &self.selection_after {
            Some(s) => Some(s),
            None => None,
        }
    }

    pub fn into_parts(self) -> (r: (Vec<TextEdit>, Option<Selection>))
        ensures
            edit_views(r.0@) == self@.0,
            option_selection_view(r.1) == self@.1,
    {
        (self.edits, self.selection_after)
    }
}

} // verus!
