//! Source buffers with a line index, byte ranges, positions and edits.
use vstd::prelude::*;
use vstd::utf8::*;
use vstd::string::*;
use crate::utf8::{lemma_boundary_after_ascii, chars_between, substring, lemma_char_step, scalar_width_at, lemma_encode_concat, lemma_boundary_in_prefix, lemma_boundary_in_suffix};

verus! {

broadcast use vstd::utf8::group_utf8_lib;

/// A half-open byte range `start..end` into a source.
#[derive(Debug, Clone, Copy, PartialEq, Eq, Structural)]
pub struct TextRange {
    pub start: usize,
    pub end: usize,
}

impl TextRange {
    pub fn new(start: usize, end: usize) -> (r: Self)
        ensures
            r.start == start,
            r.end == end,
    {
        TextRange { start, end }
    }

    pub fn caret(offset: usize) -> (r: Self)
        ensures
            r.start == offset,
            r.end == offset,
    {
        TextRange { start: offset, end: offset }
    }

    /// The number of bytes in the range; the range must not be reversed.
    pub fn len(self) -> (n: usize)
        requires
            self.start <= self.end,
        ensures
            n == self.end - self.start,
    {
        self.end - self.start
    }

    pub fn is_empty(self) -> (b: bool)
        ensures
            b == (self.start == self.end),
    {
        self.start == self.end
    }
}

/// A zero-based line and a zero-based character column within that line.
#[derive(Debug, Clone, Copy, PartialEq, Eq, Structural)]
pub struct TextPosition {
    pub line: usize,
    pub column: usize,
}

impl TextPosition {
    pub fn new(line: usize, column: usize) -> (p: Self)
        ensures
            p.line == line,
            p.column == column,
    {
        TextPosition { line, column }
    }
}

/// Replaces the bytes of `range` with `text`.
#[derive(Debug, Clone, PartialEq, Eq)]
pub struct TextEdit {
    pub range: TextRange,
    pub text: String,
}

impl TextEdit {
    pub fn insert(offset: usize, text: &str) -> (e: Self)
        ensures
            e.range == TextRange::caret_spec(offset),
            e.text@ == text@,
    {
        TextEdit { range: TextRange::caret(offset), text: text.to_owned() }
    }

    pub fn replace(range: TextRange, text: &str) -> (e: Self)
        ensures
            e.range == range,
            e.text@ == text@,
    {
        TextEdit { range, text: text.to_owned() }
    }
}

impl TextRange {
    pub open spec fn caret_spec(offset: usize) -> TextRange {
        TextRange { start: offset, end: offset }
    }
}

#[derive(Debug, Clone, Copy, PartialEq, Eq, Structural)]
pub enum EditError {
    EmptySelection,
    InvalidBoundary,
    InvalidRange,
    OverlappingEdits,
}

/// The error that validating `range` against the source bytes reports, if any:
/// a reversed or out-of-bounds range first, then an end that splits a character.
pub open spec fn range_error(bytes: Seq<u8>, range: TextRange) -> Option<EditError> {
    if range.start > range.end || range.end > bytes.len() {
        Some(EditError::InvalidRange)
    } else if !is_char_boundary(bytes, range.start as int) || !is_char_boundary(
        bytes,
        range.end as int,
    ) {
        Some(EditError::InvalidBoundary)
    } else {
        None
    }
}

/// The outcome of validating `range` against the source bytes.
pub open spec fn range_check(bytes: Seq<u8>, range: TextRange) -> Result<(), EditError> {
    match range_error(bytes, range) {
        Some(e) => Err(e),
        None => Ok(()),
    }
}

pub fn validate_range_in(text: &str, range: TextRange) -> (r: Result<(), EditError>)
    ensures
        r == range_check(encode_utf8(text@), range),
{
    let len = text.as_bytes().len();
    if range.start > range.end || range.end > len {
        return Err(EditError::InvalidRange);
    }
    if !text.is_char_boundary(range.start) || !text.is_char_boundary(range.end) {
        return Err(EditError::InvalidBoundary);
    }
    Ok(())
}

/// The start offsets of the lines among the first `n` bytes: offset 0, then the
/// offset after each newline byte.
pub open spec fn line_starts_upto(bytes: Seq<u8>, n: int) -> Seq<usize>
    decreases n,
{
    if n <= 0 {
        seq![0usize]
    } else if bytes[n - 1] == 10u8 {
        line_starts_upto(bytes, n - 1).push(n as usize)
    } else {
        line_starts_upto(bytes, n - 1)
    }
}

/// The start offset of every line of the source.
pub open spec fn line_starts(bytes: Seq<u8>) -> Seq<usize> {
    line_starts_upto(bytes, bytes.len() as int)
}

/// The byte range of line `line` without its newline, if the line exists.
pub open spec fn line_range_of(bytes: Seq<u8>, line: int) -> Option<TextRange> {
    let starts = line_starts(bytes);
    if 0 <= line < starts.len() {
        Some(
            TextRange {
                start: starts[line],
                end: if line + 1 < starts.len() {
                    (starts[line + 1] - 1) as usize
                } else {
                    bytes.len() as usize
                },
            },
        )
    } else {
        None
    }
}

/// `line` is the line that holds byte offset `offset`: the last line starting at or
/// before it.
pub open spec fn is_line_of_offset(bytes: Seq<u8>, offset: int, line: int) -> bool {
    let starts = line_starts(bytes);
    &&& 0 <= line < starts.len()
    &&& starts[line] <= offset
    &&& line + 1 < starts.len() ==> offset < starts[line + 1]
}

/// Line starts begin at 0, increase strictly, stay within the first `n` bytes, and
/// each one but the first follows a newline byte; every newline byte is followed by one.
pub proof fn lemma_line_starts_upto(bytes: Seq<u8>, n: int)
    requires
        0 <= n <= bytes.len(),
        bytes.len() <= usize::MAX,
    ensures
        line_starts_upto(bytes, n).len() >= 1,
        line_starts_upto(bytes, n)[0] == 0,
        forall|i: int, j: int|
            0 <= i < j < line_starts_upto(bytes, n).len() ==> line_starts_upto(bytes, n)[i]
                < line_starts_upto(bytes, n)[j],
        forall|i: int|
            0 <= i < line_starts_upto(bytes, n).len() ==> line_starts_upto(bytes, n)[i] <= n,
        forall|i: int|
            0 < i < line_starts_upto(bytes, n).len() ==> #[trigger] bytes[line_starts_upto(
                bytes,
                n,
            )[i] - 1] == 10u8 && line_starts_upto(bytes, n)[i] >= 1,
        forall|k: int|
            0 <= k < n && bytes[k] == 10u8 ==> exists|i: int|
                0 < i < line_starts_upto(bytes, n).len() && line_starts_upto(bytes, n)[i] == k
                    + 1,
    decreases n,
{
    if n > 0 {
        lemma_line_starts_upto(bytes, n - 1);
        let prev = line_starts_upto(bytes, n - 1);
        let cur = line_starts_upto(bytes, n);
        if bytes[n - 1] == 10u8 {
            assert(cur[cur.len() - 1] == n);
            assert forall|k: int| 0 <= k < n && bytes[k] == 10u8 implies exists|i: int|
                0 < i < cur.len() && cur[i] == k + 1 by {
                if k == n - 1 {
                    assert(cur[cur.len() - 1] == k + 1);
                } else {
                    let i = choose|i: int| 0 < i < prev.len() && prev[i] == k + 1;
                    assert(cur[i] == k + 1);
                }
            }
        }
    }
}

/// Every line start and line end is a character boundary: a line starts at 0 or
/// after a newline byte, and ends at a newline byte or at the end of the source.
pub proof fn lemma_line_bounds_are_boundaries(s: Seq<char>, line: int)
    requires
        0 <= line < line_starts(encode_utf8(s)).len(),
        encode_utf8(s).len() <= usize::MAX,
    ensures
        is_char_boundary(encode_utf8(s), line_starts(encode_utf8(s))[line] as int),
        ({
            let r = line_range_of(encode_utf8(s), line).unwrap();
            &&& r.start <= r.end <= encode_utf8(s).len()
            &&& is_char_boundary(encode_utf8(s), r.end as int)
            &&& is_char_boundary(encode_utf8(s), r.start as int)
        }),
{
    let bytes = encode_utf8(s);
    let starts = line_starts(bytes);
    lemma_line_starts_upto(bytes, bytes.len() as int);
    is_char_boundary_start_end_of_seq(bytes);
    if line > 0 {
        assert(bytes[starts[line] - 1] == 10u8);
        lemma_boundary_after_ascii(bytes, starts[line] as int);
    }
    if line + 1 < starts.len() {
        let e = starts[line + 1] - 1;
        assert(bytes[starts[line + 1] - 1] == 10u8);
        is_char_boundary_iff_not_is_continuation_byte(bytes, e);
    }
}

/// The sorted start offsets of every line, rebuilt from the source.
#[derive(Debug, Clone, PartialEq, Eq)]
struct LineIndex {
    line_starts: Vec<usize>,
}

impl LineIndex {
    fn new(text: &str) -> (r: Self)
        ensures
            r.line_starts@ == line_starts(encode_utf8(text@)),
    {
        let bytes = text.as_bytes();
        let n = bytes.len();
        let mut starts: Vec<usize> = Vec::new();
        starts.push(0);
        let mut i: usize = 0;
        while i < n
            invariant
                i <= n,
                n == bytes@.len(),
                starts@ == line_starts_upto(bytes@, i as int),
            decreases n - i,
        {
            if bytes[i] == 10u8 {
                starts.push(i + 1);
            }
            i += 1;
        }
        LineIndex { line_starts: starts }
    }
}

/// A source text together with the index of its lines.
#[derive(Debug, PartialEq, Eq)]
pub struct TextBuffer {
    text: String,
    line_index: LineIndex,
}

impl View for TextBuffer {
    type V = Seq<char>;

    closed spec fn view(&self) -> Seq<char> {
        self.text@
    }
}

impl TextBuffer {
    #[verifier::type_invariant]
    spec fn indexed(self) -> bool {
        &&& self.line_index.line_starts@ == line_starts(encode_utf8(self.text@))
        &&& encode_utf8(self.text@).len() <= usize::MAX
    }

    /// The UTF-8 bytes of the source.
    pub open spec fn bytes(self) -> Seq<u8> {
        encode_utf8(self@)
    }

    pub fn new(text: &str) -> (b: Self)
        ensures
            b@ == text@,
    {
        let owned = text.to_owned();
        let line_index = LineIndex::new(owned.as_str());
        let _ = owned.as_str().as_bytes().len();
        TextBuffer { text: owned, line_index }
    }

    pub fn as_str(&self) -> (s: &str)
        ensures
            s@ == self@,
    {
        self.text.as_str()
    }

    /// The byte length of the source.
    pub fn len(&self) -> (n: usize)
        ensures
            n == self.bytes().len(),
    {
        self.text.as_str().as_bytes().len()
    }

    pub fn is_empty(&self) -> (b: bool)
        ensures
            b == (self@.len() == 0),
    {
        self.text.as_str().is_empty()
    }

    pub fn line_count(&self) -> (n: usize)
        ensures
            n == line_starts(self.bytes()).len(),
    {
        proof {
            use_type_invariant(self);
        }
        self.line_index.line_starts.len()
    }

    pub fn line_range(&self, line_index: usize) -> (r: Option<TextRange>)
        ensures
            r == line_range_of(self.bytes(), line_index as int),
    {
        proof {
            use_type_invariant(self);
            lemma_line_starts_upto(self.bytes(), self.bytes().len() as int);
        }
        let starts = &self.line_index.line_starts;
        if line_index >= starts.len() {
            return None;
        }
        let start = starts[line_index];
        let end = if line_index + 1 < starts.len() {
            starts[line_index + 1] - 1
        } else {
            self.len()
        };
        Some(TextRange::new(start, end))
    }

    pub fn validate_range(&self, range: TextRange) -> (r: Result<(), EditError>)
        ensures
            r == range_check(self.bytes(), range),
    {
        validate_range_in(self.text.as_str(), range)
    }

    pub fn line_index_at_offset(&self, offset: usize) -> (r: Result<usize, EditError>)
        ensures
            match range_error(self.bytes(), TextRange::caret_spec(offset)) {
                Some(e) => r == Err::<usize, EditError>(e),
                None => r is Ok && is_line_of_offset(self.bytes(), offset as int, r->Ok_0 as int),
            },
    {
        self.validate_range(TextRange::caret(offset))?;
        Ok(self.line_of(offset))
    }

    pub fn position_at_offset(&self, offset: usize) -> (r: Result<TextPosition, EditError>)
        ensures
            match range_error(self.bytes(), TextRange::caret_spec(offset)) {
                Some(e) => r == Err::<TextPosition, EditError>(e),
                None => {
                    &&& r is Ok
                    &&& is_line_of_offset(self.bytes(), offset as int, r->Ok_0.line as int)
                    &&& r->Ok_0.column == chars_between(
                        self@,
                        line_starts(self.bytes())[r->Ok_0.line as int] as int,
                        offset as int,
                    ).len()
                },
            },
    {
        proof {
            use_type_invariant(self);
        }
        self.validate_range(TextRange::caret(offset))?;
        let line = self.line_of(offset);
        let line_start = self.line_index.line_starts[line];
        proof {
            lemma_line_bounds_are_boundaries(self@, line as int);
        }
        let column = substring(self.text.as_str(), line_start, offset).unicode_len();
        Ok(TextPosition::new(line, column))
    }

    pub fn offset_at_position(&self, position: TextPosition) -> (r: Result<usize, EditError>)
        ensures
            match line_range_of(self.bytes(), position.line as int) {
                None => r == Err::<usize, EditError>(EditError::InvalidRange),
                Some(lr) => {
                    let line_chars = chars_between(self@, lr.start as int, lr.end as int);
                    if position.column <= line_chars.len() {
                        r == Ok::<usize, EditError>(
                            (lr.start + encode_utf8(line_chars.take(position.column as int)).len()) as usize,
                        )
                    } else {
                        r == Err::<usize, EditError>(EditError::InvalidRange)
                    }
                },
            },
    {
        proof {
            use_type_invariant(self);
        }
        let line_range = match self.line_range(position.line) {
            Some(r) => r,
            None => return Err(EditError::InvalidRange),
        };
        proof {
            lemma_line_bounds_are_boundaries(self@, position.line as int);
        }
        let start = line_range.start;
        let end = line_range.end;
        let bytes = self.text.as_str().as_bytes();
        let ghost line_chars = chars_between(self@, start as int, end as int);
        proof {
            let sub = self.bytes().subrange(start as int, end as int);
            lemma_boundary_in_prefix(self.bytes(), end as int, start as int);
            let prefix = self.bytes().subrange(0, end as int);
            lemma_boundary_in_suffix(prefix, start as int, start as int);
            assert(prefix.subrange(start as int, prefix.len() as int) =~= sub);
            decode_utf8_encode_utf8(sub);
            assert(line_chars.skip(0) =~= line_chars);
            assert(line_chars.take(0) =~= Seq::<char>::empty());
        }
        let column = position.column;
        let mut o = start;
        let mut c: usize = 0;
        while c < column && o < end
            invariant
                start <= o <= end,
                end <= bytes@.len(),
                bytes@ == self.bytes(),
                line_chars == chars_between(self@, start as int, end as int),
                c <= line_chars.len(),
                c <= column,
                o - start == encode_utf8(line_chars.take(c as int)).len(),
                bytes@.subrange(o as int, end as int) == encode_utf8(line_chars.skip(c as int)),
                (c < line_chars.len()) <==> (o < end),
            decreases end - o,
        {
            proof {
                lemma_char_step(line_chars, c as int);
            }
            let w = scalar_width_at(bytes, o, end);
            proof {
                assert(bytes@.subrange(o + w, end as int) =~= bytes@.subrange(o as int, end as int).subrange(w as int, end - o));
                if c + 1 < line_chars.len() {
                    lemma_char_step(line_chars, c + 1);
                } else {
                    assert(line_chars.skip(c + 1) =~= Seq::<char>::empty());
                }
            }
            o = o + w;
            c = c + 1;
        }
        if c == column {
            assert(o == start + encode_utf8(line_chars.take(position.column as int)).len());
            Ok(o)
        } else {
            assert(o == end);
            assert(c == line_chars.len());
            Err(EditError::InvalidRange)
        }
    }

    /// The source text of `range`.
    pub fn slice(&self, range: TextRange) -> (r: Result<&str, EditError>)
        ensures
            match range_error(self.bytes(), range) {
                Some(e) => r == Err::<&str, EditError>(e),
                None => r is Ok && r->Ok_0@ == chars_between(self@, range.start as int, range.end as int),
            },
    {
        self.validate_range(range)?;
        Ok(substring(self.text.as_str(), range.start, range.end))
    }

    /// Replaces the whole source.
    pub fn replace_all(&mut self, text: &str)
        ensures
            final(self)@ == text@,
    {
        *self = TextBuffer::new(text);
    }

    fn line_of(&self, offset: usize) -> (line: usize)
        ensures
            is_line_of_offset(self.bytes(), offset as int, line as int),
    {
        proof {
            use_type_invariant(self);
            lemma_line_starts_upto(self.bytes(), self.bytes().len() as int);
        }
        let starts = &self.line_index.line_starts;
        let n = starts.len();
        let mut line: usize = 0;
        while line + 1 < n && starts[line + 1] <= offset
            invariant
                n == starts@.len(),
                starts@ == line_starts(self.bytes()),
                starts@.len() >= 1,
                line < starts@.len(),
                starts@[line as int] <= offset,
            decreases starts@.len() - line,
        {
            line += 1;
        }
        line
    }
}

impl Clone for TextBuffer {
    fn clone(&self) -> (r: Self)
        ensures
            r@ == self@,
    {
        proof {
            use_type_invariant(self);
        }
        TextBuffer {
            text: self.text.clone(),
            line_index: LineIndex { line_starts: self.line_index.line_starts.clone() },
        }
    }
}

} // verus!

verus! {

/// An edit as a value: the range it replaces and the characters it inserts.
pub type EditView = (TextRange, Seq<char>);

/// The views of a list of edits.
pub open spec fn edit_views(edits: Seq<TextEdit>) -> Seq<EditView> {
    edits.map_values(|e: TextEdit| (e.range, e.text@))
}

/// Inserts edit index `k` into `order`, a sequence of edit indices, after every entry
/// whose range starts at or before the range of edit `k` (a stable insertion by start).
pub open spec fn insert_by_start(edits: Seq<EditView>, order: Seq<usize>, k: usize) -> Seq<usize>
    decreases order.len(),
{
    if order.len() == 0 {
        seq![k]
    } else if edits[order.last() as int].0.start <= edits[k as int].0.start {
        order.push(k)
    } else {
        insert_by_start(edits, order.drop_last(), k).push(order.last())
    }
}

/// The indices of the first `n` edits, stably sorted by range start.
pub open spec fn sorted_order_upto(edits: Seq<EditView>, n: int) -> Seq<usize>
    decreases n,
{
    if n <= 0 {
        Seq::empty()
    } else {
        insert_by_start(edits, sorted_order_upto(edits, n - 1), (n - 1) as usize)
    }
}

/// The indices of all edits, stably sorted by range start.
pub open spec fn sorted_order(edits: Seq<EditView>) -> Seq<usize> {
    sorted_order_upto(edits, edits.len() as int)
}

/// The first range error among the first `n` edits, in the order given.
pub open spec fn first_range_error(bytes: Seq<u8>, edits: Seq<EditView>, n: int) -> Option<EditError>
    decreases n,
{
    if n <= 0 {
        None
    } else {
        match first_range_error(bytes, edits, n - 1) {
            Some(e) => Some(e),
            None => range_error(bytes, edits[n - 1].0),
        }
    }
}

/// The edit at position `k + 1` of `order` starts before the edit at position `k` ends.
pub open spec fn starts_before_previous_end(edits: Seq<EditView>, order: Seq<usize>, k: int) -> bool {
    edits[order[k + 1] as int].0.start < edits[order[k] as int].0.end
}

/// Two edits that are neighbours in start order overlap.
pub open spec fn has_overlap(edits: Seq<EditView>, order: Seq<usize>) -> bool {
    exists|k: int| 0 <= k && k + 1 < order.len() && #[trigger] starts_before_previous_end(edits, order, k)
}

/// The error that applying `edits` to the source reports, if any.
pub open spec fn edits_error(bytes: Seq<u8>, edits: Seq<EditView>) -> Option<EditError> {
    match first_range_error(bytes, edits, edits.len() as int) {
        Some(e) => Some(e),
        None => if has_overlap(edits, sorted_order(edits)) {
            Some(EditError::OverlappingEdits)
        } else {
            None
        },
    }
}

/// The source bytes from `cursor` on, with the edits of `order` applied in turn.
pub open spec fn splice_from(bytes: Seq<u8>, edits: Seq<EditView>, order: Seq<usize>, cursor: int) -> Seq<u8>
    decreases order.len(),
{
    if order.len() == 0 {
        bytes.subrange(cursor, bytes.len() as int)
    } else {
        let e = edits[order[0] as int];
        bytes.subrange(cursor, e.0.start as int) + encode_utf8(e.1) + splice_from(
            bytes,
            edits,
            order.drop_first(),
            e.0.end as int,
        )
    }
}

/// The source bytes after applying every edit against the original offsets.
pub open spec fn apply_edits_bytes(bytes: Seq<u8>, edits: Seq<EditView>) -> Seq<u8> {
    splice_from(bytes, edits, sorted_order(edits), 0)
}

/// Inserting at the position found by scanning back over later-starting entries is
/// the stable insertion.
proof fn lemma_insert_by_start_at(edits: Seq<EditView>, order: Seq<usize>, k: usize, p: int)
    requires
        0 <= p <= order.len(),
        forall|j: int| p <= j < order.len() ==> edits[order[j] as int].0.start > edits[k as int].0.start,
        p > 0 ==> edits[order[p - 1] as int].0.start <= edits[k as int].0.start,
    ensures
        insert_by_start(edits, order, k) == order.take(p).push(k) + order.skip(p),
    decreases order.len(),
{
    if order.len() == 0 {
        assert(order.take(p).push(k) + order.skip(p) =~= seq![k]);
    } else if edits[order.last() as int].0.start <= edits[k as int].0.start {
        assert(p == order.len());
        assert(order.take(p).push(k) + order.skip(p) =~= order.push(k));
    } else {
        let dl = order.drop_last();
        lemma_insert_by_start_at(edits, dl, k, p);
        assert(order.take(p).push(k) + order.skip(p) =~= (dl.take(p).push(k) + dl.skip(p)).push(order.last()));
    }
}

/// The sorted order of the first `n` edits lists each of the indices `0..n` once.
proof fn lemma_sorted_order_indices(edits: Seq<EditView>, n: int)
    requires
        0 <= n,
    ensures
        sorted_order_upto(edits, n).len() == n,
        forall|i: int| 0 <= i < n ==> sorted_order_upto(edits, n)[i] < n,
    decreases n,
{
    if n > 0 {
        lemma_sorted_order_indices(edits, n - 1);
        lemma_insert_indices(edits, sorted_order_upto(edits, n - 1), (n - 1) as usize);
    }
}

proof fn lemma_insert_indices(edits: Seq<EditView>, order: Seq<usize>, k: usize)
    ensures
        insert_by_start(edits, order, k).len() == order.len() + 1,
        forall|i: int| 0 <= i < order.len() + 1 ==> #[trigger] insert_by_start(edits, order, k)[i] == k
            || order.contains(insert_by_start(edits, order, k)[i]),
    decreases order.len(),
{
    if order.len() > 0 && !(edits[order.last() as int].0.start <= edits[k as int].0.start) {
        let dl = order.drop_last();
        lemma_insert_indices(edits, dl, k);
        let r = insert_by_start(edits, order, k);
        assert forall|i: int| 0 <= i < order.len() + 1 implies #[trigger] r[i] == k || order.contains(r[i]) by {
            if i < order.len() {
                let x = insert_by_start(edits, dl, k)[i];
                if x != k {
                    let j = choose|j: int| 0 <= j < dl.len() && dl[j] == x;
                    assert(order[j] == x);
                }
            } else {
                assert(order[order.len() - 1] == r[i]);
            }
        }
    } else if order.len() > 0 {
        let r = insert_by_start(edits, order, k);
        assert forall|i: int| 0 <= i < order.len() + 1 implies #[trigger] r[i] == k || order.contains(r[i]) by {
            if i < order.len() {
                assert(order[i] == r[i]);
            }
        }
    }
}

/// The stable order of the edit indices by range start.
fn sort_edit_order(edits: &[TextEdit]) -> (order: Vec<usize>)
    ensures
        order@ == sorted_order(edit_views(edits@)),
{
    let ghost ev = edit_views(edits@);
    let n = edits.len();
    let mut order: Vec<usize> = Vec::new();
    let mut k: usize = 0;
    while k < n
        invariant
            k <= n,
            n == edits@.len(),
                ev == edit_views(edits@),
            order@ == sorted_order_upto(ev, k as int),
        decreases n - k,
    {
        proof {
            lemma_sorted_order_indices(ev, k as int);
        }
        let key = edits[k].range.start;
        let mut p = order.len();
        while p > 0 && edits[order[p - 1]].range.start > key
            invariant
                p <= order@.len(),
                order@.len() == k,
                k < n,
                n == edits@.len(),
                ev == edit_views(edits@),
                key == ev[k as int].0.start,
                forall|i: int| 0 <= i < k ==> order@[i] < k,
                forall|j: int| p <= j < order@.len() ==> ev[order@[j] as int].0.start > key,
            decreases p,
        {
            p -= 1;
        }
        proof {
            lemma_insert_by_start_at(ev, order@, k, p as int);
        }
        order.insert(p, k);
        assert(order@ =~= insert_by_start(ev, sorted_order_upto(ev, k as int), k));
        k += 1;
    }
    order
}

impl TextBuffer {
    /// Applies every edit against the original offsets, after checking that each range
    /// is valid and that no two of them overlap; on an error the buffer is unchanged.
    pub fn apply_edits(&mut self, edits: &[TextEdit]) -> (r: Result<(), EditError>)
        ensures
            match edits_error(old(self).bytes(), edit_views(edits@)) {
                Some(e) => r == Err::<(), EditError>(e) && final(self)@ == old(self)@,
                None => r is Ok && final(self).bytes() == apply_edits_bytes(old(self).bytes(), edit_views(edits@)),
            },
    {
        let n = edits.len();
        let text = self.text.as_str();
        let ghost bytes = encode_utf8(text@);
        let ghost ev = edit_views(edits@);
        let mut i: usize = 0;
        while i < n
            invariant
                i <= n,
                n == edits@.len(),
                ev == edit_views(edits@),
                bytes == encode_utf8(text@),
                bytes == old(self).bytes(),
                first_range_error(bytes, ev, i as int) is None,
            decreases n - i,
        {
            match validate_range_in(text, edits[i].range) {
                Ok(()) => {},
                Err(e) => {
                    proof {
                        lemma_first_range_error_stays(bytes, ev, i + 1, n as int);
                    }
                    return Err(e);
                },
            }
            i += 1;
        }
        let order = sort_edit_order(edits);
        proof {
            lemma_sorted_order_indices(ev, n as int);
        }
        let mut k: usize = 0;
        while n > 0 && k < n - 1
            invariant
                k <= n,
                n == edits@.len(),
                ev == edit_views(edits@),
                order@ == sorted_order(ev),
                order@.len() == n,
                forall|j: int| 0 <= j < n ==> order@[j] < n,
                forall|j: int| 0 <= j < k ==> !#[trigger] starts_before_previous_end(ev, order@, j),
                first_range_error(bytes, ev, n as int) is None,
                bytes == old(self).bytes(),
            decreases n - k,
        {
            if edits[order[k + 1]].range.start < edits[order[k]].range.end {
                assert(starts_before_previous_end(ev, order@, k as int));
                return Err(EditError::OverlappingEdits);
            }
            k += 1;
        }
        assert(!has_overlap(ev, order@));
        let ghost vbytes = bytes;
        let mut out = String::new();
        let mut cursor: usize = 0;
        let mut j: usize = 0;
        proof {
            assert(order@.skip(0) =~= order@);
        }
        while j < n
            invariant
                j <= n,
                n == edits@.len(),
                ev == edit_views(edits@),
                order@ == sorted_order(ev),
                order@.len() == n,
                forall|x: int| 0 <= x < n ==> order@[x] < n,
                !has_overlap(ev, order@),
                first_range_error(bytes, ev, n as int) is None,
                bytes == encode_utf8(text@),
                cursor <= bytes.len(),
                is_char_boundary(bytes, cursor as int),
                j > 0 ==> cursor == ev[order@[j - 1] as int].0.end,
                j == 0 ==> cursor == 0,
                encode_utf8(out@) + splice_from(bytes, ev, order@.skip(j as int), cursor as int)
                    == splice_from(bytes, ev, order@, 0),
            decreases n - j,
        {
            let e = &edits[order[j]];
            proof {
                lemma_first_range_error_none(bytes, ev, n as int, order@[j as int] as int);
                if j > 0 {
                    assert(!starts_before_previous_end(ev, order@, j - 1));
                    assert(order@[(j - 1) + 1] == order@[j as int]);
                }
                is_char_boundary_start_end_of_seq(bytes);
            }
            let before = substring(text, cursor, e.range.start);
            proof {
                let rest = order@.skip(j as int);
                assert(rest[0] == order@[j as int]);
                assert(rest.drop_first() =~= order@.skip(j + 1));
                lemma_encode_concat(out@, before@);
                lemma_encode_concat(out@ + before@, e.text@);
                assert(ev[order@[j as int] as int] == (e.range, e.text@));
            }
            out.append(before);
            out.append(e.text.as_str());
            cursor = e.range.end;
            j += 1;
        }
        proof {
            is_char_boundary_start_end_of_seq(bytes);
        }
        let after = substring(text, cursor, text.as_bytes().len());
        proof {
            lemma_encode_concat(out@, after@);
            assert(order@.skip(n as int) =~= Seq::<usize>::empty());
        }
        out.append(after);
        let _ = out.as_str().as_bytes().len();
        let line_index = LineIndex::new(out.as_str());
        *self = TextBuffer { text: out, line_index };
        Ok(())
    }
}

/// Once an error is found among the first `i` edits it stays the first error.
proof fn lemma_first_range_error_stays(bytes: Seq<u8>, edits: Seq<EditView>, i: int, n: int)
    requires
        first_range_error(bytes, edits, i) is Some,
        0 <= i <= n,
    ensures
        first_range_error(bytes, edits, n) == first_range_error(bytes, edits, i),
    decreases n - i,
{
    if i < n {
        lemma_first_range_error_stays(bytes, edits, i, n - 1);
    }
}

/// With no error among the first `n` edits, every one of them has a valid range.
proof fn lemma_first_range_error_none(bytes: Seq<u8>, edits: Seq<EditView>, n: int, i: int)
    requires
        first_range_error(bytes, edits, n) is None,
        0 <= i < n,
    ensures
        range_error(bytes, edits[i].0) is None,
    decreases n,
{
    if i < n - 1 {
        lemma_first_range_error_none(bytes, edits, n - 1, i);
    }
}

} // verus!

verus! {

/// The bytes between two character boundaries of valid UTF-8 are valid UTF-8.
pub proof fn lemma_valid_between(bytes: Seq<u8>, start: int, end: int)
    requires
        valid_utf8(bytes),
        0 <= start <= end <= bytes.len(),
        is_char_boundary(bytes, start),
        is_char_boundary(bytes, end),
    ensures
        valid_utf8(bytes.subrange(start, end)),
{
    lemma_boundary_in_suffix(bytes, start, end);
    let suffix = bytes.subrange(start, bytes.len() as int);
    valid_utf8_split(suffix, end - start);
    assert(suffix.subrange(0, end - start) =~= bytes.subrange(start, end));
}

proof fn lemma_splice_valid(bytes: Seq<u8>, edits: Seq<EditView>, order: Seq<usize>, cursor: int)
    requires
        valid_utf8(bytes),
        0 <= cursor <= bytes.len(),
        is_char_boundary(bytes, cursor),
        forall|k: int| 0 <= k < order.len() ==> order[k] < edits.len(),
        forall|k: int|
            0 <= k < order.len() ==> range_error(bytes, #[trigger] edits[order[k] as int].0) is None,
        !has_overlap(edits, order),
        order.len() > 0 ==> cursor <= edits[order[0] as int].0.start,
    ensures
        valid_utf8(splice_from(bytes, edits, order, cursor)),
    decreases order.len(),
{
    if order.len() == 0 {
        is_char_boundary_start_end_of_seq(bytes);
        lemma_valid_between(bytes, cursor, bytes.len() as int);
    } else {
        let e = edits[order[0] as int];
        assert(range_error(bytes, edits[order[0] as int].0) is None);
        lemma_valid_between(bytes, cursor, e.0.start as int);
        let rest = order.drop_first();
        assert forall|k: int| 0 <= k && k + 1 < rest.len() implies !starts_before_previous_end(edits, rest, k) by {
            assert(!starts_before_previous_end(edits, order, k + 1));
        }
        if rest.len() > 0 {
            assert(!starts_before_previous_end(edits, order, 0));
        }
        assert forall|k: int| 0 <= k < rest.len() implies range_error(bytes, #[trigger] edits[rest[k] as int].0) is None by {
            assert(rest[k] == order[k + 1]);
        }
        lemma_splice_valid(bytes, edits, rest, e.0.end as int);
        valid_utf8_concat(bytes.subrange(cursor, e.0.start as int), encode_utf8(e.1));
        valid_utf8_concat(
            bytes.subrange(cursor, e.0.start as int) + encode_utf8(e.1),
            splice_from(bytes, edits, rest, e.0.end as int),
        );
    }
}

/// Edits that pass validation produce valid UTF-8.
pub proof fn lemma_apply_edits_valid(bytes: Seq<u8>, edits: Seq<EditView>)
    requires
        valid_utf8(bytes),
        edits_error(bytes, edits) is None,
    ensures
        valid_utf8(apply_edits_bytes(bytes, edits)),
{
    let order = sorted_order(edits);
    lemma_sorted_order_indices(edits, edits.len() as int);
    assert forall|k: int| 0 <= k < order.len() implies range_error(bytes, #[trigger] edits[order[k] as int].0) is None by {
        lemma_first_range_error_none(bytes, edits, edits.len() as int, order[k] as int);
    }
    is_char_boundary_start_end_of_seq(bytes);
    lemma_splice_valid(bytes, edits, order, 0);
}


/// Converting a character-boundary offset to a line and column and back gives the
/// offset again: the column fits its line, and the offset of that column on that line
/// is the offset.
pub proof fn law_position_round_trip(s: Seq<char>, offset: int, line: int)
    requires
        encode_utf8(s).len() <= usize::MAX,
        0 <= offset <= encode_utf8(s).len(),
        is_char_boundary(encode_utf8(s), offset),
        is_line_of_offset(encode_utf8(s), offset, line),
    ensures
        ({
            let bytes = encode_utf8(s);
            let column = chars_between(s, line_starts(bytes)[line] as int, offset).len();
            let lr = line_range_of(bytes, line);
            &&& lr is Some
            &&& column <= chars_between(s, lr->Some_0.start as int, lr->Some_0.end as int).len()
            &&& lr->Some_0.start + encode_utf8(
                chars_between(s, lr->Some_0.start as int, lr->Some_0.end as int).take(column as int),
            ).len() == offset
        }),
{
    let bytes = encode_utf8(s);
    let starts = line_starts(bytes);
    lemma_line_starts_upto(bytes, bytes.len() as int);
    lemma_line_bounds_are_boundaries(s, line);
    let lr = line_range_of(bytes, line).unwrap();
    let a = lr.start as int;
    let e = lr.end as int;
    assert(a <= offset <= e);
    lemma_boundary_in_prefix(bytes, e, offset);
    lemma_boundary_in_prefix(bytes, e, a);
    let prefix = bytes.subrange(0, e);
    lemma_boundary_in_suffix(prefix, a, offset);
    let sub = bytes.subrange(a, e);
    assert(prefix.subrange(a, prefix.len() as int) =~= sub);
    let k = offset - a;
    valid_utf8_split(sub, k);
    decode_utf8_split(sub, k);
    let head = bytes.subrange(a, offset);
    assert(sub.subrange(0, k) =~= head);
    let first = decode_utf8(head);
    let rest = decode_utf8(sub.subrange(k, sub.len() as int));
    assert(chars_between(s, a, e) =~= first + rest);
    assert((first + rest).take(first.len() as int) =~= first);
    decode_utf8_encode_utf8(head);
}
} // verus!
