//! A single directional selection.
use vstd::prelude::*;
use crate::text::TextRange;

verus! {

/// A single directional source selection: the fixed anchor and the moving head.
#[derive(Debug, Clone, Copy, PartialEq, Eq, Structural)]
pub struct TextSelection {
    anchor: usize,
    head: usize,
}

impl TextSelection {
    pub closed spec fn anchor_spec(self) -> usize {
        self.anchor
    }

    pub closed spec fn head_spec(self) -> usize {
        self.head
    }

    /// The selection with this anchor and head.
    pub closed spec fn spec_new(anchor: usize, head: usize) -> TextSelection {
        TextSelection { anchor, head }
    }

    /// A selection is its anchor and its head.
    pub broadcast proof fn lemma_parts(anchor: usize, head: usize)
        ensures
            #[trigger] Self::spec_new(anchor, head).anchor_spec() == anchor,
            Self::spec_new(anchor, head).head_spec() == head,
    {
    }

    /// The selected range: from the smaller of anchor and head to the larger.
    pub open spec fn range_spec(self) -> TextRange {
        TextRange {
            start: if self.anchor_spec() < self.head_spec() { self.anchor_spec() } else { self.head_spec() },
            end: if self.anchor_spec() > self.head_spec() { self.anchor_spec() } else { self.head_spec() },
        }
    }

    pub fn new(anchor: usize, head: usize) -> (s: Self)
        ensures
            s == Self::spec_new(anchor, head),
            s.anchor_spec() == anchor,
            s.head_spec() == head,
    {
        TextSelection { anchor, head }
    }

    pub fn caret(offset: usize) -> (s: Self)
        ensures
            s == Self::spec_new(offset, offset),
            s.anchor_spec() == offset,
            s.head_spec() == offset,
    {
        TextSelection::new(offset, offset)
    }

    pub fn anchor(self) -> (a: usize)
        ensures
            a == self.anchor_spec(),
    {
        self.anchor
    }

    pub fn head(self) -> (h: usize)
        ensures
            h == self.head_spec(),
    {
        self.head
    }

    pub fn range(self) -> (r: TextRange)
        ensures
            r == self.range_spec(),
    {
        TextRange::new(
            if self.anchor < self.head { self.anchor } else { self.head },
            if self.anchor > self.head { self.anchor } else { self.head },
        )
    }

    /// The head comes before the anchor.
    pub fn is_reversed(self) -> (b: bool)
        ensures
            b == (self.head_spec() < self.anchor_spec()),
    {
        self.head < self.anchor
    }
}

} // verus!
