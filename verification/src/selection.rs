//! Multi-range selections over a source.
use vstd::prelude::*;
use crate::text::{TextRange, TextBuffer, EditError, range_error};

verus! {

/// One or more byte ranges, one of which is the primary range.
#[derive(Debug, PartialEq, Eq)]
pub struct Selection {
    ranges: Vec<TextRange>,
    primary_index: usize,
}

#[derive(Debug, Clone, Copy, PartialEq, Eq, Structural)]
pub enum SelectionError {
    Empty,
    InvalidPrimaryIndex,
}

impl View for Selection {
    /// The ranges, and the index of the primary one.
    type V = (Seq<TextRange>, usize);

    closed spec fn view(&self) -> (Seq<TextRange>, usize) {
        (self.ranges@, self.primary_index)
    }
}

/// The first range error among the first `n` ranges, in order.
pub open spec fn first_range_error_in(bytes: Seq<u8>, ranges: Seq<TextRange>, n: int) -> Option<EditError>
    decreases n,
{
    if n <= 0 {
        None
    } else {
        match first_range_error_in(bytes, ranges, n - 1) {
            Some(e) => Some(e),
            None => range_error(bytes, ranges[n - 1]),
        }
    }
}

/// The error that checking a selection with these ranges against the source reports.
pub open spec fn selection_error(bytes: Seq<u8>, ranges: Seq<TextRange>) -> Option<EditError> {
    if ranges.len() == 0 {
        Some(EditError::EmptySelection)
    } else {
        first_range_error_in(bytes, ranges, ranges.len() as int)
    }
}

/// The outcome of checking a selection with these ranges against the source.
pub open spec fn selection_check(bytes: Seq<u8>, ranges: Seq<TextRange>) -> Result<(), EditError> {
    match selection_error(bytes, ranges) {
        Some(e) => Err(e),
        None => Ok(()),
    }
}

/// A selection of a single caret at `offset`.
pub open spec fn caret_view(offset: usize) -> (Seq<TextRange>, usize) {
    (seq![TextRange { start: offset, end: offset }], 0usize)
}

/// A caret at the start fits any source.
pub proof fn lemma_caret_at_start_fits(bytes: Seq<u8>)
    requires
        vstd::utf8::valid_utf8(bytes),
    ensures
        selection_error(bytes, caret_view(0).0) is None,
{
    vstd::utf8::is_char_boundary_start_end_of_seq(bytes);
    assert(first_range_error_in(bytes, caret_view(0).0, 0) is None);
}

/// Once a range error is found among the first `i` ranges it stays the first error.
pub proof fn lemma_first_range_error_in_stays(bytes: Seq<u8>, ranges: Seq<TextRange>, i: int, n: int)
    requires
        first_range_error_in(bytes, ranges, i) is Some,
        0 <= i <= n,
    ensures
        first_range_error_in(bytes, ranges, n) == first_range_error_in(bytes, ranges, i),
    decreases n - i,
{
    if i < n {
        lemma_first_range_error_in_stays(bytes, ranges, i, n - 1);
    }
}

impl Selection {
    #[verifier::type_invariant]
    spec fn well_formed(self) -> bool {
        &&& self.ranges@.len() > 0
        &&& self.primary_index < self.ranges@.len()
    }

    pub fn new(ranges: Vec<TextRange>, primary_index: usize) -> (r: Result<Self, SelectionError>)
        ensures
            ranges@.len() == 0 ==> r == Err::<Self, SelectionError>(SelectionError::Empty),
            ranges@.len() > 0 && primary_index >= ranges@.len() ==> r == Err::<Self, SelectionError>(
                SelectionError::InvalidPrimaryIndex,
            ),
            ranges@.len() > 0 && primary_index < ranges@.len() ==> r is Ok && r->Ok_0@ == (
                ranges@,
                primary_index,
            ),
    {
        if ranges.len() == 0 {
            return Err(SelectionError::Empty);
        }
        if primary_index >= ranges.len() {
            return Err(SelectionError::InvalidPrimaryIndex);
        }
        Ok(Selection { ranges, primary_index })
    }

    pub fn single(range: TextRange) -> (s: Self)
        ensures
            s@ == (seq![range], 0usize),
    {
        let mut ranges: Vec<TextRange> = Vec::new();
        ranges.push(range);
        Selection { ranges, primary_index: 0 }
    }

    pub fn caret(offset: usize) -> (s: Self)
        ensures
            s@ == caret_view(offset),
    {
        Selection::single(TextRange::caret(offset))
    }

    pub fn ranges(&self) -> (r: &[TextRange])
        ensures
            r@ == self@.0,
    {
        self.ranges.as_slice()
    }

    pub fn primary(&self) -> (r: TextRange)
        ensures
            r == self@.0[self@.1 as int],
    {
        proof {
            use_type_invariant(self);
        }
        self.ranges[self.primary_index]
    }

    pub fn primary_index(&self) -> (i: usize)
        ensures
            i == self@.1,
    {
        self.primary_index
    }

    /// A single empty range.
    pub fn is_caret(&self) -> (b: bool)
        ensures
            b == (self@.0.len() == 1 && self@.0[0].start == self@.0[0].end),
    {
        self.ranges.len() == 1 && self.ranges[0].is_empty()
    }

    /// Checks every range against the source, in order.
    pub fn validate_for_buffer(&self, buffer: &TextBuffer) -> (r: Result<(), EditError>)
        ensures
            r == selection_check(buffer.bytes(), self@.0),
    {
        if self.ranges.len() == 0 {
            return Err(EditError::EmptySelection);
        }
        let n = self.ranges.len();
        let mut i: usize = 0;
        while i < n
            invariant
                i <= n,
                n == self@.0.len(),
                n > 0,
                first_range_error_in(buffer.bytes(), self@.0, i as int) is None,
            decreases n - i,
        {
            match buffer.validate_range(self.ranges[i]) {
                Ok(()) => {},
                Err(e) => {
                    proof {
                        lemma_first_range_error_in_stays(buffer.bytes(), self@.0, i + 1, n as int);
                    }
                    return Err(e);
                },
            }
            i += 1;
        }
        Ok(())
    }
}

impl Clone for Selection {
    fn clone(&self) -> (r: Self)
        ensures
            r@ == self@,
    {
        proof {
            use_type_invariant(self);
        }
        let n = self.ranges.len();
        let mut ranges: Vec<TextRange> = Vec::new();
        let mut i: usize = 0;
        while i < n
            invariant
                i <= n,
                n == self@.0.len(),
                ranges@ == self@.0.take(i as int),
            decreases n - i,
        {
            ranges.push(self.ranges[i]);
            assert(ranges@ =~= self@.0.take(i + 1));
            i += 1;
        }
        assert(ranges@ =~= self@.0);
        Selection { ranges, primary_index: self.primary_index }
    }
}

} // verus!
