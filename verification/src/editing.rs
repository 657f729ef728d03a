//! Markdown-aware editing policy for plain-text input: selection helpers, paste,
//! marker autocompletion and skipping, fenced code blocks, and list indentation.
use vstd::prelude::*;
use vstd::utf8::*;
use vstd::string::*;
use std::ops::Range;
use crate::text::{TextRange};
use crate::utf8::{substring, chars_between};
use crate::source::{
    slice_is, suffix_starts_with, slice_exists, slice_equals, suffix_has_prefix, get_owned,
    bytes_match_at, str_eq, concat3, first_match_from, find_bytes,
};

verus! {

broadcast use {vstd::utf8::group_utf8_lib, vstd::array::group_array_axioms};

/// A planned replacement: the source range, its replacement, and the selection after.
pub type Replacement = (Range<usize>, String, Range<usize>);

/// The view of an optional planned replacement.
pub open spec fn plan_view(p: Option<Replacement>) -> Option<(Range<usize>, Seq<char>, Range<usize>)> {
    match p {
        Some(x) => Some((x.0, x.1@, x.2)),
        None => None,
    }
}

/// A plan that replaces `range` with `text` and then shows `after`.
pub open spec fn planned(range: Range<usize>, text: Seq<char>, after: Range<usize>) -> Option<(Range<usize>, Seq<char>, Range<usize>)> {
    Some((range, text, after))
}

/// A planned replacement keeps the range it was planned for, and its text is at most
/// `extra` bytes longer than that range.
pub open spec fn fits(r: Option<Replacement>, range: Range<usize>, extra: int) -> bool {
    r is Some ==> r->Some_0.0 == range && encode_utf8(r->Some_0.1@).len() <= range.end - range.start + extra
}

pub open spec fn caret_range(offset: int) -> Range<usize> {
    Range { start: offset as usize, end: offset as usize }
}

pub fn selection_range_from_anchor_and_head(anchor: usize, head: usize) -> (r: TextRange)
    ensures
        r.start == (if anchor < head { anchor } else { head }),
        r.end == (if anchor < head { head } else { anchor }),
{
    if anchor < head {
        TextRange::new(anchor, head)
    } else {
        TextRange::new(head, anchor)
    }
}

pub fn document_selection_range(document_len: usize) -> (r: TextRange)
    ensures
        r.start == 0,
        r.end == document_len,
{
    TextRange::new(0, document_len)
}

/// The raw source of a non-empty range, when the range lies on character boundaries.
pub fn selected_source_text(text: &str, range: &Range<usize>) -> (r: Option<String>)
    ensures
        range.start == range.end ==> r is None,
        range.start != range.end ==> (r is Some <==> slice_exists(encode_utf8(text@), range.start as int, range.end as int)),
        r is Some ==> r->Some_0@ == chars_between(text@, range.start as int, range.end as int),
{
    if range.start == range.end {
        return None;
    }
    get_owned(text, range.start, range.end)
}

/// A paste replaces the range with the text as given and leaves a caret after it.
pub fn clipboard_paste_edit(range: &Range<usize>, text: &str) -> (r: Replacement)
    requires
        range.start + encode_utf8(text@).len() <= usize::MAX,
    ensures
        r.0 == *range,
        r.1@ == text@,
        r.2 == caret_range(range.start + encode_utf8(text@).len()),
{
    let caret = range.start + text.as_bytes().len();
    (Range { start: range.start, end: range.end }, text.to_owned(), Range { start: caret, end: caret })
}

pub fn selection_is_reversed(anchor: usize, head: usize) -> (b: bool)
    ensures
        b == (head < anchor),
{
    head < anchor
}

/// The anchor and head to extend a selection from: a caret stays put, a backward
/// extension anchors at the end, and a forward one at the start.
pub fn extension_points_for_selection(selection: TextRange, direction: isize) -> (r: (usize, usize))
    ensures
        selection.start == selection.end ==> r == (selection.start, selection.start),
        selection.start != selection.end && direction < 0 ==> r == (selection.end, selection.start),
        selection.start != selection.end && direction >= 0 ==> r == (selection.start, selection.end),
{
    if selection.is_empty() {
        (selection.start, selection.start)
    } else if direction < 0 {
        (selection.end, selection.start)
    } else {
        (selection.start, selection.end)
    }
}

/// Keeps horizontal caret movement within a line: a candidate past the line's edge
/// snaps to the edge, unless the origin is already at that edge.
pub fn horizontal_offset_within_line(line_range: TextRange, origin: usize, candidate: usize, direction: isize) -> (r: Option<usize>)
    ensures
        direction < 0 && candidate < line_range.start ==> r == (if origin > line_range.start {
            Some(line_range.start)
        } else {
            None::<usize>
        }),
        direction >= 0 && candidate > line_range.end ==> r == (if origin < line_range.end {
            Some(line_range.end)
        } else {
            None::<usize>
        }),
        !(direction < 0 && candidate < line_range.start) && !(direction >= 0 && candidate > line_range.end) ==> r == Some(candidate),
{
    if direction < 0 {
        if candidate < line_range.start {
            return if origin > line_range.start { Some(line_range.start) } else { None };
        }
    } else if candidate > line_range.end {
        return if origin < line_range.end { Some(line_range.end) } else { None };
    }
    Some(candidate)
}

/// The number of non-overlapping occurrences of `m` in `b` from position `i` on,
/// found left to right.
pub open spec fn matches_from(b: Seq<u8>, m: Seq<u8>, i: int) -> nat
    decreases b.len() - i,
{
    if m.len() == 0 || i < 0 || i + m.len() > b.len() {
        0
    } else if b.subrange(i, i + m.len()) == m {
        1 + matches_from(b, m, i + m.len())
    } else {
        matches_from(b, m, i + 1)
    }
}

/// The number of markers `m` in `text[..offset]`, or 0 when that prefix does not exist.
pub open spec fn marker_count(b: Seq<u8>, offset: int, m: Seq<u8>) -> nat {
    if slice_exists(b, 0, offset) {
        matches_from(b.subrange(0, offset), m, 0)
    } else {
        0
    }
}

pub open spec fn strong_marker() -> Seq<u8> {
    seq![42u8, 42u8]
}

fn marker_count_before(text: &str, offset: usize, marker: &str) -> (n: usize)
    requires
        encode_utf8(marker@).len() > 0,
    ensures
        n == marker_count(encode_utf8(text@), offset as int, encode_utf8(marker@)),
{
    let bytes = text.as_bytes();
    let m = marker.as_bytes();
    let len = bytes.len();
    if offset > len || !text.is_char_boundary(offset) {
        return 0;
    }
    let ghost prefix = bytes@.subrange(0, offset as int);
    let mlen = m.len();
    let mut i: usize = 0;
    let mut count: usize = 0;
    while i < offset && offset - i >= mlen
        invariant
            offset <= len,
            len == bytes@.len(),
            mlen == m@.len(),
            mlen > 0,
            prefix == bytes@.subrange(0, offset as int),
            i <= offset,
            count <= i,
            matches_from(prefix, m@, 0) == count + matches_from(prefix, m@, i as int),
        decreases offset - i,
    {
        let hit = bytes_match_at(bytes, i, m);
        assert(prefix.subrange(i as int, i + mlen) =~= bytes@.subrange(i as int, i + mlen));
        if hit {
            count = count + 1;
            i = i + mlen;
        } else {
            i = i + 1;
        }
    }
    count
}

fn has_unclosed_marker_before(text: &str, offset: usize, marker: &str) -> (b: bool)
    requires
        encode_utf8(marker@).len() > 0,
    ensures
        b == (marker_count(encode_utf8(text@), offset as int, encode_utf8(marker@)) % 2 == 1),
{
    marker_count_before(text, offset, marker) % 2 == 1
}

/// The Unicode `White_Space` property.
pub open spec fn is_white_space(c: char) -> bool {
    let u = c as u32;
    ||| 0x09 <= u <= 0x0d
    ||| u == 0x20
    ||| u == 0x85
    ||| u == 0xa0
    ||| u == 0x1680
    ||| 0x2000 <= u <= 0x200a
    ||| u == 0x2028
    ||| u == 0x2029
    ||| u == 0x202f
    ||| u == 0x205f
    ||| u == 0x3000
}

pub fn char_is_white_space(c: char) -> (b: bool)
    ensures
        b == is_white_space(c),
{
    let u = c as u32;
    (0x09 <= u && u <= 0x0d) || u == 0x20 || u == 0x85 || u == 0xa0 || u == 0x1680 || (0x2000 <= u
        && u <= 0x200a) || u == 0x2028 || u == 0x2029 || u == 0x202f || u == 0x205f || u == 0x3000
}

/// `text[..offset]` exists and ends with a character that is not white space.
pub open spec fn previous_is_inline_content(text: Seq<char>, offset: int) -> bool {
    &&& slice_exists(encode_utf8(text), 0, offset)
    &&& chars_between(text, 0, offset).len() > 0
    &&& !is_white_space(chars_between(text, 0, offset).last())
}

pub fn previous_char_is_inline_content(text: &str, offset: usize) -> (b: bool)
    ensures
        b == previous_is_inline_content(text@, offset as int),
{
    let len = text.as_bytes().len();
    if offset > len || !text.is_char_boundary(offset) {
        return false;
    }
    proof {
        is_char_boundary_start_end_of_seq(encode_utf8(text@));
    }
    let prefix = substring(text, 0, offset);
    let n = prefix.unicode_len();
    if n == 0 {
        return false;
    }
    let last = prefix.get_char(n - 1);
    !char_is_white_space(last)
}

/// The `m.len()` bytes before `offset` are the marker `m`, and the bytes before those
/// are not another `m`.
pub open spec fn exact_marker_before(b: Seq<u8>, offset: int, m: Seq<u8>) -> bool {
    &&& offset >= m.len()
    &&& slice_is(b, offset - m.len(), offset, m)
    &&& !(offset - m.len() >= m.len() && slice_is(b, offset - 2 * m.len(), offset - m.len(), m))
}

pub fn previous_text_is_exact_marker(text: &str, offset: usize, marker: &str) -> (r: bool)
    ensures
        r == exact_marker_before(encode_utf8(text@), offset as int, encode_utf8(marker@)),
{
    let mlen = marker.as_bytes().len();
    if offset < mlen {
        return false;
    }
    let marker_start = offset - mlen;
    if !slice_equals(text, marker_start, offset, marker) {
        return false;
    }
    if marker_start < mlen {
        return true;
    }
    !slice_equals(text, marker_start - mlen, marker_start, marker)
}

pub fn following_text_starts_with(text: &str, offset: usize, marker: &str) -> (r: bool)
    ensures
        r == suffix_starts_with(encode_utf8(text@), offset as int, encode_utf8(marker@)),
{
    suffix_has_prefix(text, offset, marker)
}

/// A marker typed at `marker_start` would close an open strong span: an odd number of
/// `**` markers comes before it and it directly follows inline content.
pub open spec fn closes_open_strong(text: Seq<char>, marker_start: int) -> bool {
    marker_count(encode_utf8(text), marker_start, strong_marker()) % 2 == 1
        && previous_is_inline_content(text, marker_start)
}

pub fn would_close_unclosed_strong_at(text: &str, marker_start: usize) -> (r: bool)
    ensures
        r == closes_open_strong(text@, marker_start as int),
{
    let marker = "**";
    proof {
        reveal_strlit("**");
        is_ascii_chars_encode_utf8(marker@);
        assert(encode_utf8(marker@) =~= strong_marker());
    }
    has_unclosed_marker_before(text, marker_start, marker) && previous_char_is_inline_content(text, marker_start)
}

} // verus!

verus! {

pub open spec fn star() -> Seq<char> {
    seq!['*']
}

pub open spec fn two_stars() -> Seq<char> {
    seq!['*', '*']
}

/// Typing `*` after a lone `*`, or typing `**`, completes an empty strong pair with the
/// caret between the markers, unless the markers would close an open strong span or a
/// `*` already follows the caret.
pub open spec fn strong_autocomplete(text: Seq<char>, range: Range<usize>, new_text: Seq<char>) -> Option<(Range<usize>, Seq<char>, Range<usize>)> {
    let b = encode_utf8(text);
    if new_text == star() {
        if range.start < 1 {
            None
        } else if !exact_marker_before(b, range.start as int, seq![42u8]) || closes_open_strong(
            text,
            range.start - 1,
        ) || suffix_starts_with(b, range.start as int, seq![42u8]) {
            None
        } else {
            planned(range, seq!['*', '*', '*'], caret_range(range.start + 1))
        }
    } else if new_text == two_stars() {
        if exact_marker_before(b, range.start as int, seq![42u8]) || closes_open_strong(
            text,
            range.start as int,
        ) || suffix_starts_with(b, range.start as int, seq![42u8]) {
            None
        } else {
            planned(range, seq!['*', '*', '*', '*'], caret_range(range.start + 2))
        }
    } else {
        None
    }
}

proof fn lemma_ascii_literal(s: Seq<char>)
    requires
        is_ascii_chars(s),
    ensures
        encode_utf8(s) == s.map_values(|c: char| c as u8),
{
    is_ascii_chars_encode_utf8(s);
    assert(encode_utf8(s) =~= s.map_values(|c: char| c as u8));
}

fn strong_marker_autocomplete_edit(text: &str, range: &Range<usize>, new_text: &str) -> (r: Option<Replacement>)
    requires
        range.start + 3 <= usize::MAX,
    ensures
        plan_view(r) == strong_autocomplete(text@, *range, new_text@),
        range.start == range.end ==> fits(r, *range, 4),
{
    let one = "*";
    let two = "**";
    proof {
        reveal_strlit("*");
        reveal_strlit("**");
        lemma_ascii_literal(one@);
        lemma_ascii_literal(two@);
        assert(one@ =~= star());
        assert(two@ =~= two_stars());
        assert(encode_utf8(one@) =~= seq![42u8]);
    }
    if str_eq(new_text, one) {
        if range.start < 1 {
            return None;
        }
        let marker_start = range.start - 1;
        if !previous_text_is_exact_marker(text, range.start, one) || would_close_unclosed_strong_at(text, marker_start)
            || following_text_starts_with(text, range.start, one) {
            return None;
        }
        let three = "***";
        proof {
            reveal_strlit("***");
            assert(three@ =~= seq!['*', '*', '*']);
            lemma_ascii_literal(three@);
        }
        Some((Range { start: range.start, end: range.end }, three.to_owned(), Range { start: range.start + 1, end: range.start + 1 }))
    } else if str_eq(new_text, two) {
        if previous_text_is_exact_marker(text, range.start, one) || would_close_unclosed_strong_at(text, range.start)
            || following_text_starts_with(text, range.start, one) {
            return None;
        }
        let four = "****";
        proof {
            reveal_strlit("****");
            assert(four@ =~= seq!['*', '*', '*', '*']);
            lemma_ascii_literal(four@);
        }
        Some((Range { start: range.start, end: range.end }, four.to_owned(), Range { start: range.start + 2, end: range.start + 2 }))
    } else {
        None
    }
}

/// Typing `*` or `**` at a caret right before a `**` that closes an open strong span
/// moves the caret past it.
pub open spec fn marker_skip(text: Seq<char>, range: Range<usize>, new_text: Seq<char>) -> Option<usize> {
    let b = encode_utf8(text);
    if range.start != range.end || !(new_text == star() || new_text == two_stars()) {
        None
    } else if !suffix_starts_with(b, range.start as int, strong_marker()) || marker_count(b, range.start as int, strong_marker()) % 2 != 1 {
        None
    } else {
        Some((range.start + 2) as usize)
    }
}

pub fn marker_skip_offset(text: &str, range: &Range<usize>, new_text: &str) -> (r: Option<usize>)
    ensures
        r == marker_skip(text@, *range, new_text@),
{
    let one = "*";
    let marker = "**";
    proof {
        reveal_strlit("*");
        reveal_strlit("**");
        lemma_ascii_literal(one@);
        lemma_ascii_literal(marker@);
        assert(one@ =~= star());
        assert(marker@ =~= two_stars());
        assert(encode_utf8(marker@) =~= strong_marker());
    }
    if range.start != range.end || !(str_eq(new_text, one) || str_eq(new_text, marker)) {
        return None;
    }
    if !suffix_has_prefix(text, range.start, marker) || !has_unclosed_marker_before(text, range.start, marker) {
        return None;
    }
    let _ = text.as_bytes().len();
    Some(range.start + 2)
}

/// Backspace between the two markers of an empty `****` pair that opens no span
/// deletes both markers.
pub open spec fn empty_pair_delete(text: Seq<char>, range: Range<usize>) -> Option<(Range<usize>, Seq<char>, Range<usize>)> {
    let b = encode_utf8(text);
    if range.start != range.end || range.start < 2 {
        None
    } else {
        let opening = range.start - 2;
        let closing = range.start + 2;
        if !slice_is(b, opening, range.start as int, strong_marker()) || !slice_is(b, range.start as int, closing, strong_marker())
            || marker_count(b, opening, strong_marker()) % 2 != 0 {
            None
        } else {
            planned(Range { start: opening as usize, end: closing as usize }, Seq::empty(), caret_range(opening))
        }
    }
}

pub fn empty_marker_pair_delete_backward_edit(text: &str, range: &Range<usize>) -> (r: Option<Replacement>)
    requires
        range.start + 2 <= usize::MAX,
    ensures
        plan_view(r) == empty_pair_delete(text@, *range),
{
    let marker = "**";
    proof {
        reveal_strlit("**");
        lemma_ascii_literal(marker@);
        assert(encode_utf8(marker@) =~= strong_marker());
    }
    if range.start != range.end || range.start < 2 {
        return None;
    }
    let opening_start = range.start - 2;
    let closing_end = range.start + 2;
    if !slice_equals(text, opening_start, range.start, marker) || !slice_equals(text, range.start, closing_end, marker)
        || marker_count_before(text, opening_start, marker) % 2 != 0 {
        return None;
    }
    let empty = String::new();
    Some((Range { start: opening_start, end: closing_end }, empty, Range { start: opening_start, end: opening_start }))
}

/// Wrapping the selected source in `marker` on both sides, keeping the same text
/// selected inside the markers.
pub open spec fn wrapped_with(text: Seq<char>, range: Range<usize>, open: Seq<char>, close: Seq<char>) -> Option<(Range<usize>, Seq<char>, Range<usize>)> {
    if !slice_exists(encode_utf8(text), range.start as int, range.end as int) {
        None
    } else {
        let selected = chars_between(text, range.start as int, range.end as int);
        let start = range.start + encode_utf8(open).len();
        planned(range, open + selected + close, Range { start: start as usize, end: (start + (range.end - range.start)) as usize })
    }
}

fn wrap_selection_with_marker(text: &str, range: &Range<usize>, marker: &str) -> (r: Option<Replacement>)
    requires
        range.end + encode_utf8(marker@).len() <= usize::MAX,
    ensures
        plan_view(r) == wrapped_with(text@, *range, marker@, marker@),
        fits(r, *range, 2 * encode_utf8(marker@).len() as int),
{
    let selected = match get_owned(text, range.start, range.end) {
        Some(s) => s,
        None => return None,
    };
    let marker_len = marker.as_bytes().len();
    let replacement = concat3(marker, selected.as_str(), marker);
    proof {
        crate::utf8::lemma_encode_concat(marker@, selected@);
        crate::utf8::lemma_encode_concat(marker@ + selected@, marker@);
    }
    let selection_start = range.start + marker_len;
    let selection_end = selection_start + (range.end - range.start);
    Some((Range { start: range.start, end: range.end }, replacement, Range { start: selection_start, end: selection_end }))
}

fn wrap_selection_with_fence(text: &str, range: &Range<usize>, marker: &str) -> (r: Option<Replacement>)
    requires
        range.end + encode_utf8(marker@).len() + 1 <= usize::MAX,
    ensures
        plan_view(r) == wrapped_with(text@, *range, marker@ + seq!['\n'], seq!['\n'] + marker@),
        fits(r, *range, 2 * encode_utf8(marker@).len() as int + 2),
{
    let selected = match get_owned(text, range.start, range.end) {
        Some(s) => s,
        None => return None,
    };
    let newline = "\n";
    proof {
        reveal_strlit("\n");
        assert(newline@ =~= seq!['\n']);
        crate::utf8::lemma_encode_concat(marker@, newline@);
        lemma_ascii_literal(newline@);
    }
    let mut prefix = marker.to_owned();
    prefix.append(newline);
    let mut suffix = newline.to_owned();
    suffix.append(marker);
    let replacement = concat3(prefix.as_str(), selected.as_str(), suffix.as_str());
    proof {
        crate::utf8::lemma_encode_concat(newline@, marker@);
        crate::utf8::lemma_encode_concat(prefix@, selected@);
        crate::utf8::lemma_encode_concat(prefix@ + selected@, suffix@);
    }
    let selection_start = range.start + prefix.as_str().as_bytes().len();
    let selection_end = selection_start + (range.end - range.start);
    Some((Range { start: range.start, end: range.end }, replacement, Range { start: selection_start, end: selection_end }))
}

pub open spec fn three_backticks() -> Seq<char> {
    seq!['`', '`', '`']
}

pub open spec fn three_tildes() -> Seq<char> {
    seq!['~', '~', '~']
}

/// Typing a complete marker over a selection wraps it: `**` in strong markers, and
/// a fence of three backticks or tildes in a fenced code block.
pub open spec fn wrap_selection(text: Seq<char>, range: Range<usize>, new_text: Seq<char>) -> Option<(Range<usize>, Seq<char>, Range<usize>)> {
    if new_text == two_stars() {
        wrapped_with(text, range, two_stars(), two_stars())
    } else if new_text == three_backticks() {
        wrapped_with(text, range, three_backticks() + seq!['\n'], seq!['\n'] + three_backticks())
    } else if new_text == three_tildes() {
        wrapped_with(text, range, three_tildes() + seq!['\n'], seq!['\n'] + three_tildes())
    } else {
        None
    }
}

/// Wrapping a selection keeps its text selected: once the replacement stands in place
/// of the range, the selection after it covers exactly the bytes that were selected.
pub proof fn law_wrap_keeps_selected_text(text: Seq<char>, range: Range<usize>, new_text: Seq<char>)
    requires
        wrap_selection(text, range, new_text) is Some,
        range.end + 8 <= usize::MAX,
    ensures
        ({
            let b = encode_utf8(text);
            let p = wrap_selection(text, range, new_text)->Some_0;
            let after = b.subrange(0, range.start as int) + encode_utf8(p.1) + b.subrange(range.end as int, b.len() as int);
            &&& p.0 == range
            &&& after.subrange(p.2.start as int, p.2.end as int) == b.subrange(range.start as int, range.end as int)
        }),
{
    let b = encode_utf8(text);
    let (open, close) = if new_text == two_stars() {
        (two_stars(), two_stars())
    } else if new_text == three_backticks() {
        (three_backticks() + seq!['\n'], seq!['\n'] + three_backticks())
    } else {
        (three_tildes() + seq!['\n'], seq!['\n'] + three_tildes())
    };
    let selected = chars_between(text, range.start as int, range.end as int);
    crate::text::lemma_valid_between(b, range.start as int, range.end as int);
    decode_utf8_encode_utf8(b.subrange(range.start as int, range.end as int));
    crate::utf8::lemma_encode_concat(open, selected);
    crate::utf8::lemma_encode_concat(open + selected, close);
    let p = wrap_selection(text, range, new_text)->Some_0;
    assert(p.1 == open + selected + close);
    assert(is_ascii_chars(open));
    is_ascii_chars_encode_utf8(open);
    assert(encode_utf8(selected).len() == range.end - range.start);
    assert(p.2.start == range.start + encode_utf8(open).len());
    assert(p.2.end == p.2.start + (range.end - range.start));
    let after = b.subrange(0, range.start as int) + encode_utf8(p.1) + b.subrange(range.end as int, b.len() as int);
    assert(after.subrange(p.2.start as int, p.2.end as int) =~= b.subrange(range.start as int, range.end as int));
}

fn marker_wrap_selection_edit(text: &str, range: &Range<usize>, new_text: &str) -> (r: Option<Replacement>)
    requires
        range.end + 4 <= usize::MAX,
    ensures
        plan_view(r) == wrap_selection(text@, *range, new_text@),
        fits(r, *range, 8),
{
    let strong = "**";
    let backticks = "```";
    let tildes = "~~~";
    proof {
        reveal_strlit("**");
        reveal_strlit("```");
        reveal_strlit("~~~");
        lemma_ascii_literal(strong@);
        lemma_ascii_literal(backticks@);
        lemma_ascii_literal(tildes@);
        assert(strong@ =~= two_stars());
        assert(backticks@ =~= three_backticks());
        assert(tildes@ =~= three_tildes());
    }
    if str_eq(new_text, strong) {
        wrap_selection_with_marker(text, range, strong)
    } else if str_eq(new_text, backticks) {
        wrap_selection_with_fence(text, range, backticks)
    } else if str_eq(new_text, tildes) {
        wrap_selection_with_fence(text, range, tildes)
    } else {
        None
    }
}

/// The byte range of the state character of the first `[ ]`, else `[x]`, else `[X]`
/// checkbox in the marker's source.
pub open spec fn task_state_range(text: Seq<char>, marker: TextRange) -> Option<Range<usize>> {
    let b = encode_utf8(text);
    if !slice_exists(b, marker.start as int, marker.end as int) {
        None
    } else {
        let src = b.subrange(marker.start as int, marker.end as int);
        let found = match first_match_from(src, seq![91u8, 32u8, 93u8], 0) {
            Some(i) => Some(i),
            None => match first_match_from(src, seq![91u8, 120u8, 93u8], 0) {
                Some(i) => Some(i),
                None => first_match_from(src, seq![91u8, 88u8, 93u8], 0),
            },
        };
        match found {
            Some(i) => Some(Range { start: (marker.start + i + 1) as usize, end: (marker.start + i + 2) as usize }),
            None => None,
        }
    }
}

pub fn task_marker_state_char_range(text: &str, marker_range: TextRange) -> (r: Option<Range<usize>>)
    ensures
        r == task_state_range(text@, marker_range),
{
    let bytes = text.as_bytes();
    let len = bytes.len();
    if marker_range.start > marker_range.end || marker_range.end > len || !text.is_char_boundary(marker_range.start)
        || !text.is_char_boundary(marker_range.end) {
        return None;
    }
    let unchecked: [u8; 3] = [91u8, 32u8, 93u8];
    let checked: [u8; 3] = [91u8, 120u8, 93u8];
    let checked_upper: [u8; 3] = [91u8, 88u8, 93u8];
    assert(unchecked@ =~= seq![91u8, 32u8, 93u8]);
    assert(checked@ =~= seq![91u8, 120u8, 93u8]);
    assert(checked_upper@ =~= seq![91u8, 88u8, 93u8]);
    let ghost src = bytes@.subrange(marker_range.start as int, marker_range.end as int);
    let ghost spec_found = match first_match_from(src, seq![91u8, 32u8, 93u8], 0) {
        Some(i) => Some(i),
        None => match first_match_from(src, seq![91u8, 120u8, 93u8], 0) {
            Some(i) => Some(i),
            None => first_match_from(src, seq![91u8, 88u8, 93u8], 0),
        },
    };
    let found = match find_bytes(bytes, marker_range.start, marker_range.end, unchecked.as_slice()) {
        Some(i) => Some(i),
        None => match find_bytes(bytes, marker_range.start, marker_range.end, checked.as_slice()) {
            Some(i) => Some(i),
            None => find_bytes(bytes, marker_range.start, marker_range.end, checked_upper.as_slice()),
        },
    };
    assert(match found { Some(i) => spec_found == Some(i as int), None => spec_found is None });
    match found {
        Some(i) => {
            let state_offset = marker_range.start + i + 1;
            Some(Range { start: state_offset, end: state_offset + 1 })
        },
        None => None,
    }
}

} // verus!

verus! {

/// The start of the line holding `offset`: just after the last newline before it.
pub open spec fn line_start_before(b: Seq<u8>, offset: int) -> int
    decreases offset,
{
    if offset <= 0 {
        0
    } else if b[offset - 1] == 10u8 {
        offset
    } else {
        line_start_before(b, offset - 1)
    }
}

/// The end of the line holding `offset`: the first newline at or after it, or the end.
pub open spec fn line_end_from(b: Seq<u8>, offset: int) -> int
    decreases b.len() - offset,
{
    if offset >= b.len() {
        b.len() as int
    } else if b[offset] == 10u8 {
        offset
    } else {
        line_end_from(b, offset + 1)
    }
}

/// The bounds of the line that holds `offset`, which must be a character boundary.
pub fn line_bounds_for_offset(text: &str, offset: usize) -> (r: (usize, usize))
    requires
        offset <= encode_utf8(text@).len(),
        is_char_boundary(encode_utf8(text@), offset as int),
    ensures
        r.0 == line_start_before(encode_utf8(text@), offset as int),
        r.1 == line_end_from(encode_utf8(text@), offset as int),
        r.0 <= offset <= r.1 <= encode_utf8(text@).len(),
{
    let bytes = text.as_bytes();
    let len = bytes.len();
    let mut s = offset;
    while s > 0 && bytes[s - 1] != 10u8
        invariant
            s <= offset <= len,
            len == bytes@.len(),
            line_start_before(bytes@, offset as int) == line_start_before(bytes@, s as int),
        decreases s,
    {
        s -= 1;
    }
    let mut e = offset;
    while e < len && bytes[e] != 10u8
        invariant
            offset <= e <= len,
            len == bytes@.len(),
            line_end_from(bytes@, offset as int) == line_end_from(bytes@, e as int),
        decreases len - e,
    {
        e += 1;
    }
    (s, e)
}

#[derive(Debug, Clone, Copy, PartialEq, Eq, Structural)]
pub enum CodeFenceMarker {
    Backtick,
    Tilde,
}

#[derive(Debug, Clone, Copy, PartialEq, Eq, Structural)]
pub struct CodeFence {
    pub marker: CodeFenceMarker,
    pub marker_len: usize,
}

pub open spec fn fence_marker_of(b: u8) -> Option<CodeFenceMarker> {
    if b == 96u8 {
        Some(CodeFenceMarker::Backtick)
    } else if b == 126u8 {
        Some(CodeFenceMarker::Tilde)
    } else {
        None
    }
}

pub open spec fn fence_byte(m: CodeFenceMarker) -> u8 {
    match m {
        CodeFenceMarker::Backtick => 96u8,
        CodeFenceMarker::Tilde => 126u8,
    }
}

impl CodeFenceMarker {
    pub fn from_byte(byte: u8) -> (r: Option<Self>)
        ensures
            r == fence_marker_of(byte),
    {
        if byte == 96u8 {
            Some(CodeFenceMarker::Backtick)
        } else if byte == 126u8 {
            Some(CodeFenceMarker::Tilde)
        } else {
            None
        }
    }

    pub fn byte(self) -> (b: u8)
        ensures
            b == fence_byte(self),
    {
        match self {
            CodeFenceMarker::Backtick => 96u8,
            CodeFenceMarker::Tilde => 126u8,
        }
    }
}

/// Every byte is a space or a tab.
pub open spec fn all_blank(b: Seq<u8>) -> bool {
    forall|i: int| 0 <= i < b.len() ==> b[i] == 32u8 || b[i] == 9u8
}

/// The leading spaces of a line, counted up to four.
pub open spec fn capped_indent(line: Seq<u8>) -> int {
    let n = crate::source::leading_count(line, 32u8) as int;
    if n < 4 {
        n
    } else {
        4
    }
}

/// A code fence line: fewer than four spaces of indent, then at least `min_len`
/// fence markers (the required marker, or the first byte's), then, when asked, only
/// spaces and tabs.
pub open spec fn code_fence_of(line: Seq<u8>, min_len: int, require_trailing_blank: bool, required: Option<CodeFenceMarker>) -> Option<CodeFence> {
    let indent = capped_indent(line);
    if indent >= 4 {
        None
    } else {
        let content = line.subrange(indent, line.len() as int);
        let marker = match required {
            Some(m) => Some(m),
            None => if content.len() > 0 {
                fence_marker_of(content[0])
            } else {
                None
            },
        };
        match marker {
            None => None,
            Some(m) => {
                let marker_len = crate::source::leading_count(content, fence_byte(m)) as int;
                if marker_len < min_len {
                    None
                } else if require_trailing_blank && !all_blank(content.subrange(marker_len, content.len() as int)) {
                    None
                } else {
                    Some(CodeFence { marker: m, marker_len: marker_len as usize })
                }
            },
        }
    }
}

fn code_fence(bytes: &[u8], start: usize, end: usize, min_marker_len: usize, require_trailing_whitespace: bool, required_marker: Option<CodeFenceMarker>) -> (r: Option<CodeFence>)
    requires
        start <= end <= bytes@.len(),
    ensures
        r == code_fence_of(bytes@.subrange(start as int, end as int), min_marker_len as int, require_trailing_whitespace, required_marker),
{
    let ghost line = bytes@.subrange(start as int, end as int);
    let ghost expected = code_fence_of(line, min_marker_len as int, require_trailing_whitespace, required_marker);
    let spaces = crate::source::count_leading(bytes, start, end, 32u8);
    let indent = if spaces < 4 { spaces } else { 4 };
    if indent >= 4 {
        assert(expected is None);
        return None;
    }
    let content_start = start + indent;
    let ghost content = line.subrange(indent as int, line.len() as int);
    assert(content =~= bytes@.subrange(content_start as int, end as int));
    let marker = match required_marker {
        Some(m) => m,
        None => {
            if content_start < end {
                assert(content[0] == bytes@[content_start as int]);
                match CodeFenceMarker::from_byte(bytes[content_start]) {
                    Some(m) => m,
                    None => {
                        assert(expected is None);
                        return None;
                    },
                }
            } else {
                assert(expected is None);
                return None;
            }
        },
    };
    let marker_len = crate::source::count_leading(bytes, content_start, end, marker.byte());
    assert(indent == capped_indent(line));
    assert(marker_len == crate::source::leading_count(content, fence_byte(marker)));
    if marker_len < min_marker_len {
        assert(expected is None);
        return None;
    }
    assert(content.len() == end - content_start);
    assert(content.subrange(marker_len as int, content.len() as int) =~= bytes@.subrange(content_start + marker_len, end as int));
    if require_trailing_whitespace && !blank_between(bytes, content_start + marker_len, end) {
        assert(expected is None);
        return None;
    }
    assert(expected == Some(CodeFence { marker, marker_len }));
    Some(CodeFence { marker, marker_len })
}

/// True when `bytes[start..end]` holds only spaces and tabs.
fn blank_between(bytes: &[u8], start: usize, end: usize) -> (r: bool)
    requires
        start <= end <= bytes@.len(),
    ensures
        r == all_blank(bytes@.subrange(start as int, end as int)),
{
    let mut i = start;
    while i < end
        invariant
            start <= i <= end <= bytes@.len(),
            forall|j: int| start <= j < i ==> bytes@[j] == 32u8 || bytes@[j] == 9u8,
        decreases end - i,
    {
        if bytes[i] != 32u8 && bytes[i] != 9u8 {
            assert(bytes@.subrange(start as int, end as int)[i - start] == bytes@[i as int]);
            return false;
        }
        i += 1;
    }
    assert forall|j: int| 0 <= j < end - start implies #[trigger] bytes@.subrange(start as int, end as int)[j] == 32u8
        || bytes@.subrange(start as int, end as int)[j] == 9u8 by {
        assert(bytes@.subrange(start as int, end as int)[j] == bytes@[start + j]);
    }
    true
}

/// One line of the scan for an open code fence: a closing fence closes the open one,
/// and an opening fence opens one when none is open.
pub open spec fn fence_step(open: Option<CodeFence>, line: Seq<u8>) -> Option<CodeFence> {
    match open {
        Some(f) => if code_fence_of(line, f.marker_len as int, true, Some(f.marker)) is Some {
            None
        } else {
            Some(f)
        },
        None => code_fence_of(line, 3, false, None),
    }
}

/// The code fence left open after the lines of `p`, scanning from byte `i` with the
/// current line starting at `line_start`.
pub open spec fn fence_scan(p: Seq<u8>, i: int, line_start: int, open: Option<CodeFence>) -> Option<CodeFence>
    decreases p.len() - i,
{
    if i >= p.len() {
        fence_step(open, p.subrange(line_start, p.len() as int))
    } else if p[i] == 10u8 {
        fence_scan(p, i + 1, i + 1, fence_step(open, p.subrange(line_start, i)))
    } else {
        fence_scan(p, i + 1, line_start, open)
    }
}

/// The scan over bytes that hold no newline only carries the line along.
proof fn lemma_fence_scan_within_line(p: Seq<u8>, i: int, k: int, line_start: int, open: Option<CodeFence>)
    requires
        0 <= i <= k <= p.len(),
        forall|j: int| i <= j < k ==> p[j] != 10u8,
    ensures
        fence_scan(p, i, line_start, open) == fence_scan(p, k, line_start, open),
    decreases k - i,
{
    if i < k {
        lemma_fence_scan_within_line(p, i + 1, k, line_start, open);
    }
}

/// A line of at most three spaces, then three or more backticks or tildes, then any
/// info string (one that does not go on with the same marker), opens a fenced code
/// block: the opening test accepts it, and the block is still open on the next line.
pub proof fn law_info_string_opens_fence(indent: nat, marker: CodeFenceMarker, n: nat, info: Seq<u8>)
    requires
        indent <= 3,
        3 <= n <= usize::MAX,
        info.len() == 0 || info[0] != fence_byte(marker),
        forall|j: int| 0 <= j < info.len() ==> info[j] != 10u8,
    ensures
        ({
            let line = crate::source::repeated(32u8, indent) + crate::source::repeated(fence_byte(marker), n) + info;
            let fence = CodeFence { marker, marker_len: n as usize };
            &&& code_fence_of(line, 3, false, None) == Some(fence)
            &&& fence_step(None, line) == Some(fence)
            &&& fence_scan(line.push(10u8), 0, 0, None) == Some(fence)
        }),
{
    let markers = crate::source::repeated(fence_byte(marker), n);
    let content = markers + info;
    let line = crate::source::repeated(32u8, indent) + content;
    assert(line =~= crate::source::repeated(32u8, indent) + markers + info);
    assert(content[0] == fence_byte(marker));
    crate::source::lemma_leading_count_repeated(32u8, indent, content);
    assert(capped_indent(line) == indent);
    assert(line.subrange(indent as int, line.len() as int) =~= content);
    crate::source::lemma_leading_count_repeated(fence_byte(marker), n, info);
    assert(fence_marker_of(content[0]) == Some(marker));
    let fence = CodeFence { marker, marker_len: n as usize };
    assert(code_fence_of(line, 3, false, None) == Some(fence));
    let p = line.push(10u8);
    let len = line.len() as int;
    assert forall|j: int| 0 <= j < len implies p[j] != 10u8 by {
        assert(p[j] == line[j]);
        if j >= indent + n {
            assert(line[j] == info[j - indent - n]);
        }
    }
    lemma_fence_scan_within_line(p, 0, len, 0, None);
    assert(p.subrange(0, len) =~= line);
    let empty = p.subrange(len + 1, p.len() as int);
    assert(empty.len() == 0);
    assert(crate::source::leading_count(empty, 32u8) == 0);
    assert(empty.subrange(0, 0) =~= empty);
    assert(crate::source::leading_count(empty, fence_byte(marker)) == 0);
    assert(code_fence_of(empty, n as int, true, Some(marker)) is None);
    assert(p[len] == 10u8);
    assert(fence_step(None, p.subrange(0, len)) == Some(fence));
    assert(fence_scan(p, len, 0, None) == fence_scan(p, len + 1, len + 1, Some(fence)));
    assert(fence_step(Some(fence), empty) == Some(fence));
    assert(fence_scan(p, len + 1, len + 1, Some(fence)) == Some(fence));
}

/// An open fence (of three or more markers) is closed by a line of at most three spaces, at least as many of its
/// markers as opened it, and nothing else but spaces and tabs. A line that goes on
/// with anything else after its markers, or that is indented by four spaces or more,
/// leaves it open.
pub proof fn law_fence_closing_line(fence: CodeFence, indent: nat, n: nat, tail: Seq<u8>, rest: Seq<u8>)
    requires
        fence.marker_len >= 3,
        indent <= 3,
        n >= fence.marker_len,
        tail.len() == 0 || tail[0] != fence_byte(fence.marker),
    ensures
        ({
            let line = crate::source::repeated(32u8, indent) + crate::source::repeated(fence_byte(fence.marker), n)
                + tail;
            &&& all_blank(tail) ==> fence_step(Some(fence), line) is None
            &&& !all_blank(tail) ==> fence_step(Some(fence), line) == Some(fence)
            &&& fence_step(Some(fence), crate::source::repeated(32u8, 4) + rest) == Some(fence)
        }),
{
    let b = fence_byte(fence.marker);
    let content = crate::source::repeated(b, n) + tail;
    let line = crate::source::repeated(32u8, indent) + content;
    assert(line =~= crate::source::repeated(32u8, indent) + crate::source::repeated(b, n) + tail);
    assert(content[0] == b);
    crate::source::lemma_leading_count_repeated(32u8, indent, content);
    assert(line.subrange(indent as int, line.len() as int) =~= content);
    crate::source::lemma_leading_count_repeated(b, n, tail);
    assert(content.subrange(n as int, content.len() as int) =~= tail);
    let four = crate::source::repeated(32u8, 4) + rest;
    lemma_leading_count_at_least(four, 4);
}

/// A line that starts with `k` spaces has at least `k` leading spaces.
proof fn lemma_leading_count_at_least(line: Seq<u8>, k: int)
    requires
        0 <= k <= line.len(),
        forall|j: int| 0 <= j < k ==> line[j] == 32u8,
    ensures
        crate::source::leading_count(line, 32u8) >= k,
    decreases k,
{
    if k > 0 {
        assert forall|j: int| 0 <= j < k - 1 implies line.drop_first()[j] == 32u8 by {
            assert(line.drop_first()[j] == line[j + 1]);
        }
        lemma_leading_count_at_least(line.drop_first(), k - 1);
    }
}

/// A code fence is still open at `offset`.
pub open spec fn fence_open_at(b: Seq<u8>, offset: int) -> bool {
    slice_exists(b, 0, offset) && fence_scan(b.subrange(0, offset), 0, 0, None) is Some
}

pub fn has_unclosed_code_fence_before(text: &str, offset: usize) -> (r: bool)
    ensures
        r == fence_open_at(encode_utf8(text@), offset as int),
{
    let bytes = text.as_bytes();
    let len = bytes.len();
    if offset > len || !text.is_char_boundary(offset) {
        return false;
    }
    let ghost p = bytes@.subrange(0, offset as int);
    let mut open: Option<CodeFence> = None;
    let mut line_start: usize = 0;
    let mut i: usize = 0;
    while i < offset
        invariant
            i <= offset <= len,
            len == bytes@.len(),
            p == bytes@.subrange(0, offset as int),
            line_start <= i,
            fence_scan(p, 0, 0, None) == fence_scan(p, i as int, line_start as int, open),
        decreases offset - i,
    {
        if bytes[i] == 10u8 {
            assert(p.subrange(line_start as int, i as int) =~= bytes@.subrange(line_start as int, i as int));
            open = match open {
                Some(f) => if code_fence(bytes, line_start, i, f.marker_len, true, Some(f.marker)).is_some() { None } else { Some(f) },
                None => code_fence(bytes, line_start, i, 3, false, None),
            };
            line_start = i + 1;
        }
        i += 1;
    }
    assert(p.subrange(line_start as int, p.len() as int) =~= bytes@.subrange(line_start as int, offset as int));
    let last = match open {
        Some(f) => if code_fence(bytes, line_start, offset, f.marker_len, true, Some(f.marker)).is_some() { None } else { Some(f) },
        None => code_fence(bytes, line_start, offset, 3, false, None),
    };
    last.is_some()
}

pub fn opening_code_fence(bytes: &[u8], start: usize, end: usize) -> (r: Option<CodeFence>)
    requires
        start <= end <= bytes@.len(),
    ensures
        r == code_fence_of(bytes@.subrange(start as int, end as int), 3, false, None),
{
    code_fence(bytes, start, end, 3, false, None)
}

pub fn is_closing_code_fence(bytes: &[u8], start: usize, end: usize, marker: CodeFenceMarker, min_marker_len: usize) -> (r: bool)
    requires
        start <= end <= bytes@.len(),
    ensures
        r == code_fence_of(bytes@.subrange(start as int, end as int), min_marker_len as int, true, Some(marker)) is Some,
{
    code_fence(bytes, start, end, min_marker_len, true, Some(marker)).is_some()
}

} // verus!

verus! {

/// The indent of a line prefix made of fewer than four spaces followed exactly by
/// the pending fence `marker`.
pub open spec fn pending_fence_indent(prefix: Seq<u8>, marker: Seq<u8>) -> Option<int> {
    let indent = capped_indent(prefix);
    if indent >= 4 {
        None
    } else if prefix.subrange(indent, prefix.len() as int) == marker {
        Some(indent)
    } else {
        None
    }
}

fn fence_indent_for_pending_prefix<'a>(line_prefix: &'a str, marker: &str) -> (r: Option<&'a str>)
    ensures
        match pending_fence_indent(encode_utf8(line_prefix@), encode_utf8(marker@)) {
            Some(i) => r is Some && r->Some_0@ == chars_between(line_prefix@, 0, i) && encode_utf8(r->Some_0@).len() == i,
            None => r is None,
        },
{
    let bytes = line_prefix.as_bytes();
    let m = marker.as_bytes();
    let len = bytes.len();
    let spaces = crate::source::count_leading(bytes, 0, len, 32u8);
    let indent = if spaces < 4 { spaces } else { 4 };
    proof {
        assert(bytes@.subrange(0, len as int) =~= bytes@);
    }
    if indent >= 4 {
        return None;
    }
    if len - indent != m.len() || !bytes_match_at(bytes, indent, m) {
        return None;
    }
    proof {
        let b = encode_utf8(line_prefix@);
        is_char_boundary_start_end_of_seq(b);
        if indent > 0 {
            assert(crate::source::leading_count(b, 32u8) >= indent);
            lemma_leading_count_prefix(b, 32u8, indent as int);
            crate::utf8::lemma_boundary_after_ascii(b, indent as int);
        }
    }
    Some(substring(line_prefix, 0, indent))
}

/// The first `k` bytes counted by `leading_count` are all `x`.
proof fn lemma_leading_count_prefix(b: Seq<u8>, x: u8, k: int)
    requires
        0 <= k <= crate::source::leading_count(b, x),
    ensures
        k <= b.len(),
        forall|i: int| 0 <= i < k ==> b[i] == x,
    decreases k,
{
    if k > 0 {
        assert(b.len() > 0 && b[0] == x);
        lemma_leading_count_prefix(b.drop_first(), x, k - 1);
        assert forall|i: int| 0 <= i < k implies b[i] == x by {
            if i > 0 {
                assert(b.drop_first()[i - 1] == b[i]);
            }
        }
    }
}

/// The text typed starts a code fence: one or three backticks or tildes.
pub open spec fn is_fence_input(new_text: Seq<char>) -> bool {
    new_text == seq!['`'] || new_text == three_backticks() || new_text == seq!['~'] || new_text == three_tildes()
}

/// Completing a fenced code block: typing the third fence marker (or a whole fence)
/// at the end of a line that holds only the pending markers after fewer than four
/// spaces, outside any open fence, inserts a blank line and the closing fence with
/// the same indent, and puts the caret on the blank line.
pub open spec fn fence_autocomplete(text: Seq<char>, range: Range<usize>, new_text: Seq<char>) -> Option<(Range<usize>, Seq<char>, Range<usize>)> {
    if !is_fence_input(new_text) {
        None
    } else {
        let b = encode_utf8(text);
        let pending = if new_text == seq!['`'] {
            seq!['`', '`']
        } else if new_text == seq!['~'] {
            seq!['~', '~']
        } else {
            Seq::<char>::empty()
        };
        let closing = if new_text == seq!['`'] || new_text == three_backticks() {
            three_backticks()
        } else {
            three_tildes()
        };
        let start = range.start as int;
        let ls = line_start_before(b, start);
        let le = line_end_from(b, start);
        if !slice_exists(b, ls, start) || !slice_exists(b, start, le) || start != le {
            None
        } else if fence_open_at(b, ls) {
            None
        } else {
            match pending_fence_indent(b.subrange(ls, start), encode_utf8(pending)) {
                None => None,
                Some(i) => planned(
                    range,
                    new_text + seq!['\n', '\n'] + chars_between(text, ls, ls + i) + closing,
                    caret_range(start + encode_utf8(new_text).len() + 1),
                ),
            }
        }
    }
}

fn code_fence_autocomplete_edit(text: &str, range: &Range<usize>, new_text: &str) -> (r: Option<Replacement>)
    requires
        is_fence_input(new_text@) ==> range.start <= encode_utf8(text@).len() && is_char_boundary(encode_utf8(text@), range.start as int),
        range.start + 4 <= usize::MAX,
    ensures
        plan_view(r) == fence_autocomplete(text@, *range, new_text@),
        range.start == range.end ==> fits(r, *range, 12),
{
    let backtick = "`";
    let backticks = "```";
    let tilde = "~";
    let tildes = "~~~";
    let two_backticks = "``";
    let two_tildes = "~~";
    let empty = "";
    let blank = "\n\n";
    proof {
        reveal_strlit("`");
        reveal_strlit("```");
        reveal_strlit("~");
        reveal_strlit("~~~");
        reveal_strlit("``");
        reveal_strlit("~~");
        reveal_strlit("");
        reveal_strlit("\n\n");
        assert(backtick@ =~= seq!['`']);
        assert(backticks@ =~= three_backticks());
        assert(tilde@ =~= seq!['~']);
        assert(tildes@ =~= three_tildes());
        assert(two_backticks@ =~= seq!['`', '`']);
        assert(two_tildes@ =~= seq!['~', '~']);
        assert(empty@ =~= Seq::<char>::empty());
        assert(blank@ =~= seq!['\n', '\n']);
        lemma_ascii_literal(backtick@);
        lemma_ascii_literal(backticks@);
        lemma_ascii_literal(tilde@);
        lemma_ascii_literal(tildes@);
    }
    let is_backtick = str_eq(new_text, backtick);
    let is_backticks = str_eq(new_text, backticks);
    let is_tilde = str_eq(new_text, tilde);
    let is_tildes = str_eq(new_text, tildes);
    if !(is_backtick || is_backticks || is_tilde || is_tildes) {
        return None;
    }
    let (line_start, line_end) = line_bounds_for_offset(text, range.start);
    let bytes = text.as_bytes();
    let len = bytes.len();
    if !(text.is_char_boundary(line_start) && text.is_char_boundary(line_end)) {
        return None;
    }
    if range.start != line_end {
        return None;
    }
    if has_unclosed_code_fence_before(text, line_start) {
        return None;
    }
    let pending = if is_backtick { two_backticks } else if is_tilde { two_tildes } else { empty };
    let closing = if is_backtick || is_backticks { backticks } else { tildes };
    let line_prefix = substring(text, line_start, range.start);
    let indent = match fence_indent_for_pending_prefix(line_prefix, pending) {
        Some(i) => i,
        None => return None,
    };
    proof {
        let b = encode_utf8(text@);
        let p = b.subrange(line_start as int, range.start as int);
        assert(encode_utf8(line_prefix@) == p);
        let i = pending_fence_indent(p, encode_utf8(pending@))->Some_0;
        assert(is_fence_input(new_text@));
        lemma_leading_count_prefix(p, 32u8, i);
        crate::utf8::lemma_encode_concat(Seq::<char>::empty(), Seq::<char>::empty());
        is_char_boundary_start_end_of_seq(p);
        lemma_chars_between_nested(text@, line_start as int, range.start as int, i);
    }
    let mut replacement = new_text.to_owned();
    replacement.append(blank);
    replacement.append(indent);
    replacement.append(closing);
    proof {
        crate::utf8::lemma_encode_concat(new_text@, blank@);
        crate::utf8::lemma_encode_concat(new_text@ + blank@, indent@);
        crate::utf8::lemma_encode_concat(new_text@ + blank@ + indent@, closing@);
        lemma_ascii_literal(blank@);
    }
    let caret = range.start + new_text.as_bytes().len() + 1;
    Some((Range { start: range.start, end: range.end }, replacement, Range { start: caret, end: caret }))
}

/// Characters between offsets of a slice are the characters between the shifted
/// offsets of the whole text.
proof fn lemma_chars_between_nested(text: Seq<char>, start: int, end: int, i: int)
    requires
        0 <= start <= end <= encode_utf8(text).len(),
        is_char_boundary(encode_utf8(text), start),
        is_char_boundary(encode_utf8(text), end),
        0 <= i <= end - start,
    ensures
        chars_between(decode_utf8(encode_utf8(text).subrange(start, end)), 0, i) == chars_between(text, start, start + i),
{
    let b = encode_utf8(text);
    let sub = b.subrange(start, end);
    assert(sub.subrange(0, i) =~= b.subrange(start, start + i));
    crate::text::lemma_valid_between(b, start, end);
    decode_utf8_encode_utf8(sub);
}

} // verus!

verus! {

/// The typing policy for marker input: over a selection, complete markers wrap it;
/// at a caret, a fenced code block is completed first, then a strong pair.
pub open spec fn marker_autocomplete(text: Seq<char>, range: Range<usize>, new_text: Seq<char>) -> Option<(Range<usize>, Seq<char>, Range<usize>)> {
    if range.start != range.end {
        wrap_selection(text, range, new_text)
    } else {
        match fence_autocomplete(text, range, new_text) {
            Some(p) => Some(p),
            None => strong_autocomplete(text, range, new_text),
        }
    }
}

pub fn marker_autocomplete_edit(text: &str, range: &Range<usize>, new_text: &str) -> (r: Option<Replacement>)
    requires
        range.start + 4 <= usize::MAX,
        range.end + 4 <= usize::MAX,
        range.start == range.end && is_fence_input(new_text@) ==> range.start <= encode_utf8(text@).len()
            && is_char_boundary(encode_utf8(text@), range.start as int),
    ensures
        plan_view(r) == marker_autocomplete(text@, *range, new_text@),
        fits(r, *range, 12),
{
    if range.start != range.end {
        return marker_wrap_selection_edit(text, range, new_text);
    }
    match code_fence_autocomplete_edit(text, range, new_text) {
        Some(p) => Some(p),
        None => strong_marker_autocomplete_edit(text, range, new_text),
    }
}

} // verus!
