//! Text replacement requests from a platform.
use vstd::prelude::*;
use crate::text::TextRange;
use crate::editor::selection::TextSelection;

verus! {

/// Selects whether a replacement should run typing policy or preserve the supplied source.
#[derive(Debug, Clone, Copy, PartialEq, Eq, Structural)]
pub enum TextInputMode {
    /// Interactive typing may complete, wrap, or skip Markdown markers.
    Typing,
    /// Paste and IME updates insert exactly the supplied source.
    Literal,
}

/// A platform-independent text replacement request.
#[derive(Debug, Clone, PartialEq, Eq)]
pub struct TextInput {
    mode: TextInputMode,
    text: String,
    range: Option<TextRange>,
    selection_after: Option<TextSelection>,
}

/// The parts of a text input: mode, text, explicit range, and selection after.
pub struct TextInputView {
    pub mode: TextInputMode,
    pub text: Seq<char>,
    pub range: Option<TextRange>,
    pub selection_after: Option<TextSelection>,
}

impl View for TextInput {
    type V = TextInputView;

    closed spec fn view(&self) -> TextInputView {
        TextInputView {
            mode: self.mode,
            text: self.text@,
            range: self.range,
            selection_after: self.selection_after,
        }
    }
}

impl TextInput {
    pub fn typing(text: &str) -> (i: Self)
        ensures
            i@ == (TextInputView { mode: TextInputMode::Typing, text: text@, range: None, selection_after: None }),
    {
        TextInput::new(TextInputMode::Typing, text)
    }

    pub fn literal(text: &str) -> (i: Self)
        ensures
            i@ == (TextInputView { mode: TextInputMode::Literal, text: text@, range: None, selection_after: None }),
    {
        TextInput::new(TextInputMode::Literal, text)
    }

    fn new(mode: TextInputMode, text: &str) -> (i: Self)
        ensures
            i@ == (TextInputView { mode, text: text@, range: None, selection_after: None }),
    {
        TextInput { mode, text: text.to_owned(), range: None, selection_after: None }
    }

    /// Replaces an explicit source range instead of the current selection.
    pub fn replacing(self, range: TextRange) -> (i: Self)
        ensures
            i@ == (TextInputView { range: Some(range), ..self@ }),
    {
        TextInput { mode: self.mode, text: self.text, range: Some(range), selection_after: self.selection_after }
    }

    /// Sets the directional selection after the replacement is applied.
    pub fn selecting_after(self, selection: TextSelection) -> (i: Self)
        ensures
            i@ == (TextInputView { selection_after: Some(selection), ..self@ }),
    {
        TextInput { mode: self.mode, text: self.text, range: self.range, selection_after: Some(selection) }
    }

    pub fn mode(&self) -> (m: TextInputMode)
        ensures
            m == self@.mode,
    {
        self.mode
    }

    pub fn text(&self) -> (t: &str)
        ensures
            t@ == self@.text,
    {
        self.text.as_str()
    }

    pub fn range(&self) -> (r: Option<TextRange>)
        ensures
            r == self@.range,
    {
        self.range
    }

    pub fn selection_after(&self) -> (s: Option<TextSelection>)
        ensures
            s == self@.selection_after,
    {
        self.selection_after
    }

    pub fn into_parts(self) -> (r: (TextInputMode, String, Option<TextRange>, Option<TextSelection>))
        ensures
            r.0 == self@.mode,
            r.1@ == self@.text,
            r.2 == self@.range,
            r.3 == self@.selection_after,
    {
        (self.mode, self.text, self.range, self.selection_after)
    }
}

} // verus!
