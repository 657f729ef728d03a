//! The observable effects of one editor operation.
use vstd::prelude::*;

verus! {

/// Describes the observable effects of one editor operation.
#[derive(Debug, Clone, Copy, PartialEq, Eq, Structural)]
pub struct Update {
    text_changed: bool,
    selection_changed: bool,
    history_changed: bool,
}

impl View for Update {
    /// Whether the text, the selection and the history changed.
    type V = (bool, bool, bool);

    closed spec fn view(&self) -> (bool, bool, bool) {
        (self.text_changed, self.selection_changed, self.history_changed)
    }
}

impl Update {
    pub fn new(text_changed: bool, selection_changed: bool, history_changed: bool) -> (u: Self)
        ensures
            u@ == (text_changed, selection_changed, history_changed),
    {
        Update { text_changed, selection_changed, history_changed }
    }

    pub fn text_changed(self) -> (b: bool)
        ensures
            b == self@.0,
    {
        self.text_changed
    }

    pub fn selection_changed(self) -> (b: bool)
        ensures
            b == self@.1,
    {
        self.selection_changed
    }

    pub fn history_changed(self) -> (b: bool)
        ensures
            b == self@.2,
    {
        self.history_changed
    }

    /// Anything changed.
    pub fn changed(self) -> (b: bool)
        ensures
            b == (self@.0 || self@.1 || self@.2),
    {
        self.text_changed || self.selection_changed || self.history_changed
    }
}

impl Default for Update {
    fn default() -> (u: Self)
        ensures
            u@ == (false, false, false),
    {
        Update::new(false, false, false)
    }
}

} // verus!
