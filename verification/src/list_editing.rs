//! Newlines and indentation inside Markdown lists and block quotes.
use vstd::prelude::*;
use vstd::utf8::*;
use vstd::string::*;
use std::ops::Range;
use crate::text::{TextRange, TextEdit, EditView, edit_views};
use crate::utf8::{substring, chars_between};
use crate::source::{leading_count, slice_exists};
use crate::editing::{is_white_space, char_is_white_space, caret_range, line_end_from, line_bounds_for_offset};
use crate::lists::{
    MarkdownListMarker, MarkdownTaskState, OrderedListDelimiter, ListItem, list_item, list_item_of,
    blockquote_content_start, blockquote_start_of, list_indent_len, lemma_list_item_bounds, lemma_blockquote_bounds,
};
use crate::decimal::{decimal, digit_char, push_decimal};
use crate::lists::{digit_run, digits_value, is_digit, list_marker_of, lemma_digit_run_split};

verus! {

broadcast use vstd::utf8::group_utf8_lib;

/// The direction in which list items are re-indented.
#[derive(Debug, Clone, Copy, PartialEq, Eq, Structural)]
pub enum ListIndentDirection {
    Increase,
    Decrease,
}

/// The number of spaces that one indentation step adds or removes.
pub const LIST_INDENT_WIDTH: usize = 2;

/// Every character is white space.
pub open spec fn all_white(s: Seq<char>) -> bool {
    forall|i: int| 0 <= i < s.len() ==> is_white_space(#[trigger] s[i])
}

/// `s.trim().is_empty()`: the text holds nothing but white space.
pub fn is_blank(s: &str) -> (b: bool)
    ensures
        b == all_white(s@),
{
    let n = s.unicode_len();
    let mut i: usize = 0;
    while i < n
        invariant
            n == s@.len(),
            i <= n,
            forall|j: int| 0 <= j < i ==> is_white_space(#[trigger] s@[j]),
        decreases n - i,
    {
        if !char_is_white_space(s.get_char(i)) {
            return false;
        }
        i += 1;
    }
    true
}

pub open spec fn delimiter_text(delimiter: OrderedListDelimiter) -> Seq<char> {
    match delimiter {
        OrderedListDelimiter::Dot => seq!['.'],
        OrderedListDelimiter::Paren => seq![')'],
    }
}

/// The number after `n`, staying at the largest `u64`.
pub open spec fn saturating_next(n: u64) -> nat {
    if n == u64::MAX {
        n as nat
    } else {
        (n + 1) as nat
    }
}

/// The marker of the list item that follows one with `marker`: the same bullet, or
/// the next number with the same delimiter.
pub open spec fn next_marker(marker: MarkdownListMarker) -> Seq<char> {
    match marker {
        MarkdownListMarker::Unordered { marker } => seq![marker],
        MarkdownListMarker::Ordered { number, delimiter } => decimal(saturating_next(number)) + delimiter_text(delimiter),
    }
}

/// The marker of the next item, with an unchecked box when the item is a task.
pub open spec fn next_item_marker(marker: MarkdownListMarker, task: Option<MarkdownTaskState>) -> Seq<char> {
    if task is Some {
        next_marker(marker) + seq![' ', '[', ' ', ']']
    } else {
        next_marker(marker)
    }
}

pub fn ordered_list_delimiter(delimiter: OrderedListDelimiter) -> (r: &'static str)
    ensures
        r@ == delimiter_text(delimiter),
{
    proof {
        reveal_strlit(".");
        reveal_strlit(")");
    }
    match delimiter {
        OrderedListDelimiter::Dot => ".",
        OrderedListDelimiter::Paren => ")",
    }
}

/// `ToString::to_string` on a `char`: the string of that one character.
#[verifier::external_body]
fn char_to_string(c: char) -> (r: String)
    ensures
        r@ == seq![c],
{
    c.to_string()
}

pub fn next_list_marker_text(marker: MarkdownListMarker) -> (r: String)
    ensures
        r@ == next_marker(marker),
{
    match marker {
        MarkdownListMarker::Unordered { marker } => char_to_string(marker),
        MarkdownListMarker::Ordered { number, delimiter } => {
            let mut out = String::new();
            push_decimal(&mut out, number.saturating_add(1));
            out.append(ordered_list_delimiter(delimiter));
            proof {
                assert(Seq::<char>::empty() + decimal(saturating_next(number)) =~= decimal(saturating_next(number)));
            }
            out
        },
    }
}

pub fn next_list_item_marker_text(marker: MarkdownListMarker, task: Option<MarkdownTaskState>) -> (r: String)
    ensures
        r@ == next_item_marker(marker, task),
{
    let mut out = next_list_marker_text(marker);
    if task.is_some() {
        let unchecked = " [ ]";
        proof {
            reveal_strlit(" [ ]");
        }
        out.append(unchecked);
    }
    out
}

/// Pressing return at a caret on a block quote line: on a quote line with content,
/// start a new line with the same marker; on an empty one, clear the marker.
pub open spec fn blockquote_newline(line: Seq<char>, line_range: TextRange, range: Range<usize>) -> Option<
    (Range<usize>, Seq<char>, Range<usize>),
> {
    let b = encode_utf8(line);
    if range.start != range.end {
        None
    } else {
        match blockquote_start_of(b) {
            None => None,
            Some(c) => if all_white(chars_between(line, c, b.len() as int)) {
                Some((Range { start: line_range.start, end: line_range.end }, Seq::empty(), caret_range(line_range.start as int)))
            } else {
                let replacement = seq!['\n'] + chars_between(line, 0, c);
                Some((range, replacement, caret_range(range.start + encode_utf8(replacement).len())))
            },
        }
    }
}

pub fn blockquote_newline_edit_for_line(line_source: &str, line_range: TextRange, range: &Range<usize>) -> (r: Option<
    (Range<usize>, String, Range<usize>),
>)
    requires
        range.start + encode_utf8(line_source@).len() + 1 <= usize::MAX,
    ensures
        crate::editing::plan_view(r) == blockquote_newline(line_source@, line_range, *range),
{
    if range.start != range.end {
        return None;
    }
    let content_start = match blockquote_content_start(line_source) {
        Some(c) => c,
        None => return None,
    };
    let len = line_source.as_bytes().len();
    proof {
        lemma_blockquote_bounds(line_source@);
        is_char_boundary_start_end_of_seq(encode_utf8(line_source@));
    }
    let marker = substring(line_source, 0, content_start);
    let content = substring(line_source, content_start, len);
    if is_blank(content) {
        let caret = line_range.start;
        return Some((Range { start: line_range.start, end: line_range.end }, String::new(), Range { start: caret, end: caret }));
    }
    let newline = "\n";
    proof {
        reveal_strlit("\n");
        assert(newline@ =~= seq!['\n']);
        lemma_char_len('\n');
        crate::utf8::lemma_encode_concat(newline@, marker@);
    }
    let mut replacement = newline.to_owned();
    replacement.append(marker);
    let caret = range.start + replacement.as_str().as_bytes().len();
    Some((Range { start: range.start, end: range.end }, replacement, Range { start: caret, end: caret }))
}

/// Pressing return at a caret on a list item: with content, start the next item at
/// the same indent; on an empty nested item, outdent it by one step; on an empty
/// top-level item, clear the marker.
pub open spec fn list_newline(line: Seq<char>, line_range: TextRange, range: Range<usize>) -> Option<
    (Range<usize>, Seq<char>, Range<usize>),
> {
    let b = encode_utf8(line);
    if range.start != range.end {
        None
    } else {
        match list_item_of(b) {
            None => None,
            Some(item) => {
                let indent = leading_count(b, 32u8) as int;
                if all_white(chars_between(line, item.content_start as int, b.len() as int)) {
                    if indent > 0 {
                        let k = if indent < 2 { indent } else { 2 };
                        Some(
                            (
                                Range { start: line_range.start, end: (line_range.start + k) as usize },
                                Seq::empty(),
                                caret_range(if range.start >= k { range.start - k } else { 0 }),
                            ),
                        )
                    } else {
                        Some((Range { start: line_range.start, end: line_range.end }, Seq::empty(), caret_range(line_range.start as int)))
                    }
                } else {
                    let replacement = seq!['\n'] + chars_between(line, 0, indent) + next_item_marker(item.marker, item.task)
                        + seq![' '];
                    Some((range, replacement, caret_range(range.start + encode_utf8(replacement).len())))
                }
            },
        }
    }
}

proof fn lemma_decimal_ascii(n: nat)
    ensures
        is_ascii_chars(decimal(n)),
        1 <= decimal(n).len(),
    decreases n,
{
    if n >= 10 {
        lemma_decimal_ascii(n / 10);
    }
}

proof fn lemma_decimal_len_below(n: nat, k: nat)
    requires
        k >= 1,
        n < crate::lists::pow10(k),
    ensures
        decimal(n).len() <= k,
    decreases n,
{
    if n >= 10 {
        assert(k >= 2) by {
            if k == 1 {
                assert(crate::lists::pow10(0) == 1);
                assert(crate::lists::pow10(1) == 10);
            }
        }
        assert(n / 10 < crate::lists::pow10((k - 1) as nat)) by (nonlinear_arith)
            requires
                n < crate::lists::pow10(k),
                crate::lists::pow10(k) == 10 * crate::lists::pow10((k - 1) as nat),
        ;
        lemma_decimal_len_below(n / 10, (k - 1) as nat);
    }
}

/// A `u64` has at most twenty decimal digits.
proof fn lemma_decimal_u64(n: u64)
    ensures
        decimal(n as nat).len() <= 20,
        is_ascii_chars(decimal(n as nat)),
        encode_utf8(decimal(n as nat)).len() == decimal(n as nat).len(),
{
    crate::lists::lemma_pow10_twenty();
    lemma_decimal_len_below(n as nat, 20);
    lemma_decimal_ascii(n as nat);
    is_ascii_chars_encode_utf8(decimal(n as nat));
}

/// A single character encodes in at most four bytes.
proof fn lemma_char_len(c: char)
    ensures
        encode_utf8(seq![c]).len() <= 4,
        encode_utf8(seq![c]) == encode_scalar(c as u32),
        (c as u32) < 0x80 ==> encode_utf8(seq![c]).len() == 1,
{
    assert(seq![c].drop_first() =~= Seq::<char>::empty());
    assert(encode_utf8(Seq::<char>::empty()) =~= Seq::<u8>::empty());
    assert(seq![c][0] == c);
    assert(encode_utf8(seq![c]) =~= encode_scalar(c as u32));
}

/// The marker text of a next list item is at most 29 bytes long.
proof fn lemma_next_item_marker_len(marker: MarkdownListMarker, task: Option<MarkdownTaskState>)
    ensures
        encode_utf8(next_item_marker(marker, task)).len() <= 29,
{
    match marker {
        MarkdownListMarker::Unordered { marker: c } => {
            lemma_char_len(c);
        },
        MarkdownListMarker::Ordered { number, delimiter } => {
            let n = saturating_next(number);
            lemma_decimal_u64(n as u64);
            crate::utf8::lemma_encode_concat(decimal(n), delimiter_text(delimiter));
            match delimiter {
                OrderedListDelimiter::Dot => lemma_char_len('.'),
                OrderedListDelimiter::Paren => lemma_char_len(')'),
            }
        },
    }
    assert(encode_utf8(next_marker(marker)).len() <= 25);
    if task is Some {
        crate::utf8::lemma_encode_concat(next_marker(marker), seq![' ', '[', ' ', ']']);
        assert(is_ascii_chars(seq![' ', '[', ' ', ']']));
        is_ascii_chars_encode_utf8(seq![' ', '[', ' ', ']']);
    }
}

/// The text that starts the next list item: a newline, the indent, the next marker
/// and a space.
fn item_continuation(indent: &str, item: ListItem) -> (r: String)
    ensures
        r@ == seq!['\n'] + indent@ + next_item_marker(item.marker, item.task) + seq![' '],
        encode_utf8(r@).len() <= encode_utf8(indent@).len() + 31,
{
    let marker = next_list_item_marker_text(item.marker, item.task);
    let newline = "\n";
    let space = " ";
    proof {
        reveal_strlit("\n");
        reveal_strlit(" ");
        assert(newline@ =~= seq!['\n']);
        assert(space@ =~= seq![' ']);
        lemma_char_len('\n');
        lemma_char_len(' ');
        crate::utf8::lemma_encode_concat(newline@, indent@);
        crate::utf8::lemma_encode_concat(newline@ + indent@, marker@);
        crate::utf8::lemma_encode_concat(newline@ + indent@ + marker@, space@);
        lemma_next_item_marker_len(item.marker, item.task);
    }
    let mut replacement = newline.to_owned();
    replacement.append(indent);
    replacement.append(marker.as_str());
    replacement.append(space);
    replacement
}

pub fn list_newline_edit_for_line(line_source: &str, line_range: TextRange, range: &Range<usize>) -> (r: Option<
    (Range<usize>, String, Range<usize>),
>)
    requires
        range.start + encode_utf8(line_source@).len() + 32 <= usize::MAX,
        line_range.start + 2 <= usize::MAX,
    ensures
        crate::editing::plan_view(r) == list_newline(line_source@, line_range, *range),
{
    if range.start != range.end {
        return None;
    }
    let item = match list_item(line_source) {
        Some(i) => i,
        None => return None,
    };
    let len = line_source.as_bytes().len();
    let indent_len = list_indent_len(line_source);
    proof {
        lemma_list_item_bounds(line_source@);
        is_char_boundary_start_end_of_seq(encode_utf8(line_source@));
    }
    let content = substring(line_source, item.content_start, len);
    if is_blank(content) {
        if indent_len > 0 {
            let remove_len = if indent_len < LIST_INDENT_WIDTH { indent_len } else { LIST_INDENT_WIDTH };
            let caret = range.start.saturating_sub(remove_len);
            return Some(
                (Range { start: line_range.start, end: line_range.start + remove_len }, String::new(), Range { start: caret, end: caret }),
            );
        }
        let caret = line_range.start;
        return Some((Range { start: line_range.start, end: line_range.end }, String::new(), Range { start: caret, end: caret }));
    }
    let indent = substring(line_source, 0, indent_len);
    let replacement = item_continuation(indent, item);
    let caret = range.start + replacement.as_str().as_bytes().len();
    Some((Range { start: range.start, end: range.end }, replacement, Range { start: caret, end: caret }))
}

/// Where a line selection effectively ends: a non-empty selection that ends right
/// after a newline does not reach into the next line.
pub open spec fn effective_end(b: Seq<u8>, range: Range<usize>) -> int {
    if range.start == range.end {
        range.end as int
    } else if range.end > 0 && range.end - 1 < b.len() && b[range.end - 1] == 10u8 {
        range.end - 1
    } else {
        range.end as int
    }
}

/// The end of a line is at or after its start, and is a newline or the end of the text.
pub proof fn lemma_line_end_from(b: Seq<u8>, start: int)
    requires
        0 <= start <= b.len(),
    ensures
        start <= line_end_from(b, start) <= b.len(),
        line_end_from(b, start) < b.len() ==> b[line_end_from(b, start)] == 10u8,
    decreases b.len() - start,
{
    if start < b.len() && b[start] != 10u8 {
        lemma_line_end_from(b, start + 1);
    }
}

/// The lines from the one starting at `start` on (each without its newline) that
/// end at or after `first` and start at or before `last`.
pub open spec fn lines_from(b: Seq<u8>, start: int, first: int, last: int) -> Seq<TextRange>
    decreases b.len() - start,
{
    if start < 0 || start > b.len() {
        Seq::empty()
    } else {
        let end = line_end_from(b, start);
        let here = if end >= first && start <= last {
            seq![TextRange { start: start as usize, end: end as usize }]
        } else {
            Seq::empty()
        };
        if end >= b.len() || start > last {
            here
        } else {
            proof {
                lemma_line_end_from(b, start);
            }
            here + lines_from(b, end + 1, first, last)
        }
    }
}

pub fn effective_line_selection_end(text: &str, range: &Range<usize>) -> (r: usize)
    ensures
        r == effective_end(encode_utf8(text@), *range),
{
    if range.start == range.end {
        return range.end;
    }
    let bytes = text.as_bytes();
    if range.end > 0 && range.end - 1 < bytes.len() && bytes[range.end - 1] == 10u8 {
        range.end - 1
    } else {
        range.end
    }
}

/// The lines that a selection touches.
pub fn selected_list_line_ranges(text: &str, range: &Range<usize>) -> (r: Vec<TextRange>)
    ensures
        r@ == lines_from(encode_utf8(text@), 0, range.start as int, effective_end(encode_utf8(text@), *range)),
{
    let ghost b = encode_utf8(text@);
    let ghost first = range.start as int;
    let ghost last = effective_end(b, *range);
    let len = text.as_bytes().len();
    let effective = effective_line_selection_end(text, range);
    let mut lines: Vec<TextRange> = Vec::new();
    let mut line_start: usize = 0;
    proof {
        is_char_boundary_start_end_of_seq(b);
    }
    loop
        invariant
            b == encode_utf8(text@),
            len == b.len(),
            effective == last,
            last == effective_end(b, *range),
            first == range.start,
            line_start <= len,
            is_char_boundary(b, line_start as int),
            lines@ + lines_from(b, line_start as int, first, last) == lines_from(b, 0, first, last),
        decreases len - line_start,
    {
        let (_, line_end) = line_bounds_for_offset(text, line_start);
        proof {
            lemma_line_end_from(b, line_start as int);
        }
        let ghost before = lines@;
        if line_end >= range.start && line_start <= effective {
            lines.push(TextRange::new(line_start, line_end));
        }
        if line_end == len || line_start > effective {
            proof {
                assert(lines@ =~= lines_from(b, 0, first, last));
            }
            return lines;
        }
        proof {
            assert(b[line_end as int] == 10u8);
            crate::utf8::lemma_boundary_after_ascii(b, line_end + 1);
            assert(lines@ + lines_from(b, line_end + 1, first, last) =~= before + lines_from(
                b,
                line_start as int,
                first,
                last,
            ));
        }
        line_start = line_end + 1;
    }
}

/// The edit that re-indents one line, if it is a list item: indenting inserts two
/// spaces at its start; outdenting removes up to two of its leading spaces.
pub open spec fn line_indent_edit(text: Seq<char>, line: TextRange, direction: ListIndentDirection) -> Option<EditView> {
    let b = encode_utf8(text);
    if !slice_exists(b, line.start as int, line.end as int) {
        None
    } else {
        let lb = b.subrange(line.start as int, line.end as int);
        if list_item_of(lb) is None {
            None
        } else {
            match direction {
                ListIndentDirection::Increase => Some((TextRange::caret_spec(line.start), seq![' ', ' '])),
                ListIndentDirection::Decrease => {
                    let k = if leading_count(lb, 32u8) < 2 { leading_count(lb, 32u8) as int } else { 2 };
                    if k == 0 {
                        None
                    } else {
                        Some((TextRange { start: line.start, end: (line.start + k) as usize }, Seq::empty()))
                    }
                },
            }
        }
    }
}

fn list_indent_edit_for_line(text: &str, line_range: TextRange, direction: ListIndentDirection) -> (r: Option<TextEdit>)
    ensures
        match r {
            Some(e) => line_indent_edit(text@, line_range, direction) == Some((e.range, e.text@)),
            None => line_indent_edit(text@, line_range, direction) is None,
        },
{
    let len = text.as_bytes().len();
    if line_range.start > line_range.end || line_range.end > len || !text.is_char_boundary(line_range.start)
        || !text.is_char_boundary(line_range.end) {
        return None;
    }
    let line_source = substring(text, line_range.start, line_range.end);
    if list_item(line_source).is_none() {
        return None;
    }
    match direction {
        ListIndentDirection::Increase => {
            let spaces = "  ";
            proof {
                reveal_strlit("  ");
                assert(spaces@ =~= seq![' ', ' ']);
            }
            Some(TextEdit::insert(line_range.start, spaces))
        },
        ListIndentDirection::Decrease => {
            let indent = list_indent_len(line_source);
            let remove_len = if indent < LIST_INDENT_WIDTH { indent } else { LIST_INDENT_WIDTH };
            if remove_len == 0 {
                return None;
            }
            let empty = "";
            proof {
                reveal_strlit("");
                assert(empty@ =~= Seq::<char>::empty());
            }
            Some(TextEdit::replace(TextRange::new(line_range.start, line_range.start + remove_len), empty))
        },
    }
}

/// The re-indenting edits of the list item lines among `lines`, in order.
pub open spec fn indent_edits(text: Seq<char>, lines: Seq<TextRange>, direction: ListIndentDirection) -> Seq<EditView>
    decreases lines.len(),
{
    if lines.len() == 0 {
        Seq::empty()
    } else {
        let rest = indent_edits(text, lines.drop_last(), direction);
        match line_indent_edit(text, lines.last(), direction) {
            Some(e) => rest.push(e),
            None => rest,
        }
    }
}

/// Where `offset` moves after one more edit, given its current place `t`: an insertion
/// at or before it pushes it on; a replacement before it pulls it back by what
/// shrank; a replacement across it pulls it back to where the replacement starts.
pub open spec fn shift_offset(t: int, offset: int, e: EditView) -> int {
    let removed = e.0.end - e.0.start;
    let inserted = encode_utf8(e.1).len() as int;
    if removed == 0 {
        if e.0.start <= offset {
            t + inserted
        } else {
            t
        }
    } else if e.0.end <= offset {
        t - (if removed > inserted { removed - inserted } else { 0 })
    } else if e.0.start < offset {
        if t > offset - e.0.start {
            t - (offset - e.0.start)
        } else {
            0
        }
    } else {
        t
    }
}

/// Where `offset`, in the text before `edits`, lands after all of them.
pub open spec fn transform_offset(offset: int, edits: Seq<EditView>) -> int
    decreases edits.len(),
{
    if edits.len() == 0 {
        offset
    } else {
        shift_offset(transform_offset(offset, edits.drop_last()), offset, edits.last())
    }
}

/// Each edit's range is in order, and ends before the next one starts.
pub open spec fn edits_in_order(edits: Seq<EditView>) -> bool {
    &&& forall|i: int| 0 <= i < edits.len() ==> (#[trigger] edits[i]).0.start <= edits[i].0.end
    &&& forall|i: int, j: int| 0 <= i < j < edits.len() ==> (#[trigger] edits[i]).0.end <= (#[trigger] edits[j]).0.start
}

/// The total number of bytes that `edits` insert.
pub open spec fn total_inserted(edits: Seq<EditView>) -> nat
    decreases edits.len(),
{
    if edits.len() == 0 {
        0
    } else {
        total_inserted(edits.drop_last()) + encode_utf8(edits.last().1).len()
    }
}

proof fn lemma_total_inserted_prefix(edits: Seq<EditView>, i: int)
    requires
        0 <= i <= edits.len(),
    ensures
        total_inserted(edits.take(i)) <= total_inserted(edits),
    decreases edits.len() - i,
{
    if i < edits.len() {
        lemma_total_inserted_prefix(edits, i + 1);
        assert(edits.take(i + 1).drop_last() =~= edits.take(i));
    } else {
        assert(edits.take(i) =~= edits);
    }
}

fn transform_offset_after_edits(offset: usize, edits: &[TextEdit]) -> (r: usize)
    requires
        edits_in_order(edit_views(edits@)),
        offset + total_inserted(edit_views(edits@)) <= usize::MAX,
    ensures
        r == transform_offset(offset as int, edit_views(edits@)),
{
    let ghost ev = edit_views(edits@);
    let n = edits.len();
    let mut transformed = offset;
    let mut i: usize = 0;
    while i < n
        invariant
            n == edits@.len() == ev.len(),
            ev == edit_views(edits@),
            edits_in_order(ev),
            offset + total_inserted(ev) <= usize::MAX,
            i <= n,
            transformed == transform_offset(offset as int, ev.take(i as int)),
            transformed <= offset + total_inserted(ev.take(i as int)),
            i > 0 ==> offset - transformed <= ev[i - 1].0.end,
            i == 0 ==> transformed == offset,
        decreases n - i,
    {
        let edit = &edits[i];
        proof {
            assert(ev[i as int] == (edit.range, edit.text@));
            assert(ev.take(i + 1).drop_last() =~= ev.take(i as int));
            assert(ev.take(i + 1).last() == ev[i as int]);
            lemma_total_inserted_prefix(ev, i + 1);
            if i > 0 {
                assert(ev[i - 1].0.end <= ev[i as int].0.start);
            }
        }
        let removed_len = edit.range.end - edit.range.start;
        let inserted_len = edit.text.as_str().len();
        if removed_len == 0 {
            if edit.range.start <= offset {
                transformed += inserted_len;
            }
        } else if edit.range.end <= offset {
            transformed -= removed_len.saturating_sub(inserted_len);
        } else if edit.range.start < offset {
            transformed = transformed.saturating_sub(offset - edit.range.start);
        }
        i += 1;
    }
    proof {
        assert(ev.take(n as int) =~= ev);
    }
    transformed
}

fn transform_range_after_edits(range: &Range<usize>, edits: &[TextEdit]) -> (r: Range<usize>)
    requires
        edits_in_order(edit_views(edits@)),
        range.start + total_inserted(edit_views(edits@)) <= usize::MAX,
        range.end + total_inserted(edit_views(edits@)) <= usize::MAX,
    ensures
        r.start == transform_offset(range.start as int, edit_views(edits@)),
        r.end == transform_offset(range.end as int, edit_views(edits@)),
{
    Range { start: transform_offset_after_edits(range.start, edits), end: transform_offset_after_edits(range.end, edits) }
}

/// Re-indenting the list items that a selection touches: the edits, in order, and
/// the selection carried through them; nothing when no touched line is a list item
/// that can move.
pub open spec fn list_indent(text: Seq<char>, range: Range<usize>, direction: ListIndentDirection) -> Option<
    (Seq<EditView>, Range<usize>),
> {
    let b = encode_utf8(text);
    let edits = indent_edits(text, lines_from(b, 0, range.start as int, effective_end(b, range)), direction);
    if edits.len() == 0 {
        None
    } else {
        Some(
            (
                edits,
                Range {
                    start: transform_offset(range.start as int, edits) as usize,
                    end: transform_offset(range.end as int, edits) as usize,
                },
            ),
        )
    }
}

/// Lines in order: each within the text, each ending before the next one starts.
pub open spec fn lines_in_order(lines: Seq<TextRange>, len: int) -> bool {
    &&& forall|i: int| 0 <= i < lines.len() ==> (#[trigger] lines[i]).start <= lines[i].end <= len
    &&& forall|i: int, j: int| 0 <= i < j < lines.len() ==> (#[trigger] lines[i]).end < (#[trigger] lines[j]).start
}

proof fn lemma_lines_from(b: Seq<u8>, start: int, first: int, last: int)
    requires
        0 <= start <= b.len(),
        b.len() <= usize::MAX,
    ensures
        lines_in_order(lines_from(b, start, first, last), b.len() as int),
        forall|i: int| 0 <= i < lines_from(b, start, first, last).len() ==> start <= (#[trigger] lines_from(b, start, first, last)[i]).start,
        lines_from(b, start, first, last).len() <= b.len() - start + 1,
    decreases b.len() - start,
{
    let end = line_end_from(b, start);
    lemma_line_end_from(b, start);
    if end < b.len() && start <= last {
        lemma_lines_from(b, end + 1, first, last);
        let rest = lines_from(b, end + 1, first, last);
        let here = if end >= first && start <= last {
            seq![TextRange { start: start as usize, end: end as usize }]
        } else {
            Seq::<TextRange>::empty()
        };
        let all = lines_from(b, start, first, last);
        assert(all == here + rest);
        assert forall|i: int, j: int| 0 <= i < j < all.len() implies (#[trigger] all[i]).end < (#[trigger] all[j]).start by {
            if here.len() == 1 && i == 0 {
                assert(all[j] == rest[j - 1]);
            } else {
                assert(all[i] == rest[i - here.len()]);
                assert(all[j] == rest[j - here.len()]);
            }
        }
        assert forall|i: int| 0 <= i < all.len() implies start <= (#[trigger] all[i]).start && all[i].start <= all[i].end <= b.len() by {
            if !(here.len() == 1 && i == 0) {
                assert(all[i] == rest[i - here.len()]);
            }
        }
    }
}

proof fn lemma_line_indent_edit(text: Seq<char>, line: TextRange, direction: ListIndentDirection)
    requires
        line.start <= line.end,
        line_indent_edit(text, line, direction) is Some,
    ensures
        ({
            let e = line_indent_edit(text, line, direction)->Some_0;
            &&& e.0.start == line.start
            &&& e.0.start <= e.0.end <= line.end
            &&& encode_utf8(e.1).len() <= 2
        }),
{
    let b = encode_utf8(text);
    let lb = b.subrange(line.start as int, line.end as int);
    crate::lists::lemma_leading_spaces_end(lb);
    let e = line_indent_edit(text, line, direction)->Some_0;
    match direction {
        ListIndentDirection::Increase => {
            assert(is_ascii_chars(seq![' ', ' ']));
            is_ascii_chars_encode_utf8(seq![' ', ' ']);
        },
        ListIndentDirection::Decrease => {
            assert(encode_utf8(Seq::<char>::empty()) =~= Seq::<u8>::empty());
        },
    }
}

proof fn lemma_indent_edits(text: Seq<char>, lines: Seq<TextRange>, direction: ListIndentDirection, len: int)
    requires
        lines_in_order(lines, len),
    ensures
        edits_in_order(indent_edits(text, lines, direction)),
        total_inserted(indent_edits(text, lines, direction)) <= 2 * lines.len(),
        indent_edits(text, lines, direction).len() <= lines.len(),
        lines.len() > 0 ==> forall|k: int|
            0 <= k < indent_edits(text, lines, direction).len() ==> (#[trigger] indent_edits(text, lines, direction)[k]).0.end
                <= lines.last().end,
    decreases lines.len(),
{
    if lines.len() > 0 {
        let prefix = lines.drop_last();
        assert(lines_in_order(prefix, len)) by {
            assert forall|i: int, j: int| 0 <= i < j < prefix.len() implies (#[trigger] prefix[i]).end < (#[trigger] prefix[j]).start by {
                assert(prefix[i] == lines[i] && prefix[j] == lines[j]);
            }
            assert forall|i: int| 0 <= i < prefix.len() implies (#[trigger] prefix[i]).start <= prefix[i].end <= len by {
                assert(prefix[i] == lines[i]);
            }
        }
        lemma_indent_edits(text, prefix, direction, len);
        let rest = indent_edits(text, prefix, direction);
        let all = indent_edits(text, lines, direction);
        let l = lines.last();
        assert(l == lines[lines.len() - 1]);
        if prefix.len() > 0 {
            assert(prefix.last() == lines[lines.len() - 2]);
            assert(lines[lines.len() - 2].end < l.start);
        }
        match line_indent_edit(text, l, direction) {
            Some(e) => {
                lemma_line_indent_edit(text, l, direction);
                assert(all == rest.push(e));
                assert(all.drop_last() =~= rest);
                assert forall|i: int, j: int| 0 <= i < j < all.len() implies (#[trigger] all[i]).0.end <= (#[trigger] all[j]).0.start by {
                    if j == all.len() - 1 {
                        assert(all[i] == rest[i]);
                    } else {
                        assert(all[i] == rest[i] && all[j] == rest[j]);
                    }
                }
                assert forall|i: int| 0 <= i < all.len() implies (#[trigger] all[i]).0.start <= all[i].0.end by {
                    if i < rest.len() {
                        assert(all[i] == rest[i]);
                    }
                }
                assert forall|k: int| 0 <= k < all.len() implies (#[trigger] all[k]).0.end <= l.end by {
                    if k < rest.len() {
                        assert(all[k] == rest[k]);
                    }
                }
            },
            None => {
                assert forall|k: int| 0 <= k < all.len() implies (#[trigger] all[k]).0.end <= l.end by {
                    assert(all[k] == rest[k]);
                }
            },
        }
    }
}

pub fn list_indent_edit(text: &str, range: &Range<usize>, direction: ListIndentDirection) -> (r: Option<(Vec<TextEdit>, Range<usize>)>)
    requires
        range.start + 2 * encode_utf8(text@).len() + 2 <= usize::MAX,
        range.end + 2 * encode_utf8(text@).len() + 2 <= usize::MAX,
    ensures
        match list_indent(text@, *range, direction) {
            None => r is None,
            Some((edits, after)) => r is Some && edit_views(r->Some_0.0@) == edits && r->Some_0.1 == after,
        },
{
    let ghost b = encode_utf8(text@);
    let lines = selected_list_line_ranges(text, range);
    let ghost all_lines = lines@;
    let mut edits: Vec<TextEdit> = Vec::new();
    let mut i: usize = 0;
    while i < lines.len()
        invariant
            i <= lines@.len(),
            all_lines == lines@,
            edit_views(edits@) == indent_edits(text@, lines@.take(i as int), direction),
        decreases lines@.len() - i,
    {
        let line = lines[i];
        proof {
            assert(lines@.take(i + 1).drop_last() =~= lines@.take(i as int));
            assert(lines@.take(i + 1).last() == line);
        }
        match list_indent_edit_for_line(text, line, direction) {
            Some(e) => {
                let ghost before = edits@;
                edits.push(e);
                proof {
                    assert(edit_views(edits@) =~= edit_views(before).push((e.range, e.text@)));
                }
            },
            None => {},
        }
        i += 1;
    }
    proof {
        assert(lines@.take(lines@.len() as int) =~= lines@);
    }
    if edits.len() == 0 {
        return None;
    }
    proof {
        lemma_lines_from(b, 0, range.start as int, effective_end(b, *range));
        lemma_indent_edits(text@, lines@, direction, b.len() as int);
    }
    let after = transform_range_after_edits(range, edits.as_slice());
    Some((edits, after))
}

/// The marker that continues a list after `marker`.
pub open spec fn continued_marker(marker: MarkdownListMarker) -> MarkdownListMarker {
    match marker {
        MarkdownListMarker::Unordered { marker } => MarkdownListMarker::Unordered { marker },
        MarkdownListMarker::Ordered { number, delimiter } => MarkdownListMarker::Ordered {
            number: saturating_next(number) as u64,
            delimiter,
        },
    }
}

/// The value of a run of digits depends on those bytes alone.
proof fn lemma_digits_value_same(b1: Seq<u8>, p1: int, b2: Seq<u8>, p2: int, k: int)
    requires
        0 <= k,
        0 <= p1,
        p1 + k <= b1.len(),
        0 <= p2,
        p2 + k <= b2.len(),
        b1.subrange(p1, p1 + k) == b2.subrange(p2, p2 + k),
    ensures
        digits_value(b1, p1, k) == digits_value(b2, p2, k),
    decreases k,
{
    if k > 0 {
        assert(b1.subrange(p1, p1 + k - 1) =~= b1.subrange(p1, p1 + k).subrange(0, k - 1));
        assert(b2.subrange(p2, p2 + k - 1) =~= b2.subrange(p2, p2 + k).subrange(0, k - 1));
        lemma_digits_value_same(b1, p1, b2, p2, k - 1);
        let s1 = b1.subrange(p1, p1 + k);
        let s2 = b2.subrange(p2, p2 + k);
        assert(s1[k - 1] == b1[p1 + (k - 1)]);
        assert(s2[k - 1] == b2[p2 + (k - 1)]);
        assert(s1[k - 1] == s2[k - 1]);
        assert(digits_value(b1, p1, k) == digits_value(b1, p1, k - 1) * 10 + (b1[p1 + k - 1] - 48) as nat);
        assert(digits_value(b2, p2, k) == digits_value(b2, p2, k - 1) * 10 + (b2[p2 + k - 1] - 48) as nat);
    }
}

proof fn lemma_digit_char(d: nat)
    requires
        d < 10,
    ensures
        digit_char(d) as u8 == 48 + d,
        '\0' <= digit_char(d) <= '\u{7f}',
{
    if d == 0 {
    } else if d == 1 {
    } else if d == 2 {
    } else if d == 3 {
    } else if d == 4 {
    } else if d == 5 {
    } else if d == 6 {
    } else if d == 7 {
    } else if d == 8 {
    } else {
    }
}

/// The decimal digits of `m` are ASCII digits that read back as `m`.
proof fn lemma_decimal_digits(m: nat)
    ensures
        ({
            let e = encode_utf8(decimal(m));
            &&& e.len() == decimal(m).len() >= 1
            &&& forall|i: int| 0 <= i < e.len() ==> is_digit(#[trigger] e[i])
            &&& digits_value(e, 0, e.len() as int) == m
        }),
    decreases m,
{
    lemma_decimal_ascii(m);
    is_ascii_chars_encode_utf8(decimal(m));
    let e = encode_utf8(decimal(m));
    assert forall|i: int| 0 <= i < e.len() implies is_digit(#[trigger] e[i]) by {
        assert(decimal(m)[i] as u8 == e[i]);
        lemma_decimal_chars(m, i);
        let d = choose|d: nat| d < 10 && decimal(m)[i] == #[trigger] digit_char(d);
        lemma_digit_char(d);
    }
    if m >= 10 {
        lemma_decimal_digits(m / 10);
        let e1 = encode_utf8(decimal(m / 10));
        let last = seq![digit_char(m % 10)];
        lemma_digit_char(m % 10);
        assert(decimal(m) == decimal(m / 10) + last);
        crate::utf8::lemma_encode_concat(decimal(m / 10), last);
        assert(is_ascii_chars(last));
        is_ascii_chars_encode_utf8(last);
        assert(e =~= e1 + encode_utf8(last));
        assert(e.subrange(0, e1.len() as int) =~= e1.subrange(0, e1.len() as int));
        lemma_digits_value_same(e, 0, e1, 0, e1.len() as int);
        assert(e[e.len() - 1] == 48 + m % 10);
        assert(digits_value(e, 0, e.len() as int) == digits_value(e, 0, e1.len() as int) * 10 + (e[e.len() - 1] - 48) as nat);
        assert((m / 10) * 10 + m % 10 == m);
    } else {
        lemma_digit_char(m);
        assert(e[0] == 48 + m);
        assert(digits_value(e, 0, 0) == 0);
    }
}

proof fn lemma_decimal_chars(m: nat, i: int)
    requires
        0 <= i < decimal(m).len(),
    ensures
        exists|d: nat| d < 10 && decimal(m)[i] == #[trigger] digit_char(d),
    decreases m,
{
    if m >= 10 {
        if i < decimal(m / 10).len() {
            lemma_decimal_chars(m / 10, i);
            assert(decimal(m)[i] == decimal(m / 10)[i]);
        } else {
            assert(decimal(m)[i] == digit_char(m % 10));
        }
    } else {
        assert(decimal(m)[i] == digit_char(m));
    }
}

/// The leading spaces of `spaces + rest` are those spaces, when `rest` starts with
/// something else.
proof fn lemma_leading_spaces_concat(spaces: Seq<u8>, rest: Seq<u8>)
    requires
        forall|i: int| 0 <= i < spaces.len() ==> spaces[i] == 32u8,
        rest.len() > 0,
        rest[0] != 32u8,
    ensures
        leading_count(spaces + rest, 32u8) == spaces.len(),
    decreases spaces.len(),
{
    if spaces.len() == 0 {
        assert(spaces + rest =~= rest);
    } else {
        assert((spaces + rest).drop_first() =~= spaces.drop_first() + rest);
        lemma_leading_spaces_concat(spaces.drop_first(), rest);
    }
}

/// What follows the marker on a continued line: a space, after an unchecked box for
/// a task.
pub open spec fn continuation_tail(has_task: bool) -> Seq<u8> {
    if has_task {
        seq![32u8, 91u8, 32u8, 93u8, 32u8]
    } else {
        seq![32u8]
    }
}

/// The list item that a continued line starts.
proof fn lemma_continued_item(spaces: Seq<u8>, marker: MarkdownListMarker, has_task: bool)
    requires
        forall|i: int| 0 <= i < spaces.len() ==> spaces[i] == 32u8,
        marker matches MarkdownListMarker::Unordered { marker: c } ==> (c == '-' || c == '+' || c == '*'),
        marker matches MarkdownListMarker::Ordered { number, .. } ==> number < 999_999_999,
        spaces.len() + 32 <= usize::MAX,
    ensures
        ({
            let line = spaces + (encode_utf8(next_marker(marker)) + continuation_tail(has_task));
            list_item_of(line) == Some(
                ListItem {
                    marker: continued_marker(marker),
                    task: if has_task { Some(MarkdownTaskState::Unchecked) } else { None },
                    content_start: line.len() as usize,
                },
            )
        }),
{
    let core = encode_utf8(next_marker(marker));
    let tail = continuation_tail(has_task);
    let line = spaces + (core + tail);
    let p = spaces.len() as int;
    match marker {
        MarkdownListMarker::Unordered { marker: c } => {
            lemma_char_len(c);
            assert(is_ascii_chars(seq![c]));
            is_ascii_chars_encode_utf8(seq![c]);
            assert(core.len() == 1);
            assert(core[0] == 45u8 || core[0] == 43u8 || core[0] == 42u8);
            lemma_leading_spaces_concat(spaces, core + tail);
            assert(line[p] == core[0]);
            assert(line[p + 1] == 32u8);
            assert(list_marker_of(line) == Some((marker, p + 1)));
        },
        MarkdownListMarker::Ordered { number, delimiter } => {
            let n1 = saturating_next(number);
            lemma_decimal_digits(n1);
            assert(crate::lists::pow10(9) == 1000000000) by {
                crate::lists::lemma_pow10_twenty();
            }
            lemma_decimal_len_below(n1, 9);
            let digits = encode_utf8(decimal(n1));
            let dl = delimiter_text(delimiter);
            assert(is_ascii_chars(dl));
            is_ascii_chars_encode_utf8(dl);
            crate::utf8::lemma_encode_concat(decimal(n1), dl);
            let k = digits.len() as int;
            assert(core =~= digits + encode_utf8(dl));
            assert(is_digit(core[0]));
            lemma_leading_spaces_concat(spaces, core + tail);
            assert forall|i: int| p <= i < p + k implies is_digit(#[trigger] line[i]) by {
                assert(line[i] == digits[i - p]);
            }
            lemma_digit_run_split(line, p, k);
            assert(line[p + k] == 46u8 || line[p + k] == 41u8);
            assert(digit_run(line, p + k) == 0);
            assert(line.subrange(p, p + k) =~= digits.subrange(0, k));
            lemma_digits_value_same(line, p, digits, 0, k);
            assert(line[p + k + 1] == 32u8);
            assert(list_marker_of(line) == Some((continued_marker(marker), p + k + 1)));
        },
    }
}

/// Continuing a list item with content starts a line that is itself a list item: the
/// same bullet or the next number, an unchecked box for a task, and the caret's place
/// as the start of its (empty) content.
#[verifier::rlimit(50)]
pub proof fn law_list_newline_continues_the_list(line: Seq<char>, line_range: TextRange, range: Range<usize>)
    requires
        encode_utf8(line).len() + 32 <= usize::MAX,
        list_newline(line, line_range, range) is Some,
        ({
            let item = list_item_of(encode_utf8(line))->Some_0;
            &&& !all_white(chars_between(line, item.content_start as int, encode_utf8(line).len() as int))
            &&& (item.marker matches MarkdownListMarker::Ordered { number, .. } ==> number < 999_999_999)
        }),
    ensures
        ({
            let item = list_item_of(encode_utf8(line))->Some_0;
            let replacement = list_newline(line, line_range, range)->Some_0.1;
            let next_line = encode_utf8(replacement.drop_first());
            &&& replacement[0] == '\n'
            &&& list_item_of(next_line) == Some(
                ListItem {
                    marker: continued_marker(item.marker),
                    task: if item.task is Some { Some(MarkdownTaskState::Unchecked) } else { None },
                    content_start: next_line.len() as usize,
                },
            )
        }),
{
    let b = encode_utf8(line);
    let item = list_item_of(b)->Some_0;
    let indent = leading_count(b, 32u8) as int;
    lemma_list_item_bounds(line);
    crate::text::lemma_valid_between(b, 0, indent);
    decode_utf8_encode_utf8(b.subrange(0, indent));
    let spaces = b.subrange(0, indent);
    let indent_text = chars_between(line, 0, indent);
    let marker_text = next_item_marker(item.marker, item.task);
    let replacement = seq!['\n'] + indent_text + marker_text + seq![' '];
    assert(replacement.drop_first() =~= indent_text + marker_text + seq![' ']);
    crate::utf8::lemma_encode_concat(indent_text, marker_text);
    crate::utf8::lemma_encode_concat(indent_text + marker_text, seq![' ']);
    assert(is_ascii_chars(seq![' ']));
    is_ascii_chars_encode_utf8(seq![' ']);
    let box_text = seq![' ', '[', ' ', ']'];
    assert(is_ascii_chars(box_text));
    is_ascii_chars_encode_utf8(box_text);
    let core = encode_utf8(next_marker(item.marker));
    if item.task is Some {
        crate::utf8::lemma_encode_concat(next_marker(item.marker), box_text);
    }
    let next_line = encode_utf8(replacement.drop_first());
    assert(next_line =~= spaces + (core + continuation_tail(item.task is Some)));
    let (m, after) = list_marker_of(b)->Some_0;
    assert(m == item.marker);
    lemma_continued_item(spaces, item.marker, item.task is Some);
}

/// The end of the last of `edits`, or 0 when there are none.
pub open spec fn last_end(edits: Seq<EditView>) -> int {
    if edits.len() == 0 {
        0
    } else {
        edits.last().0.end as int
    }
}

proof fn lemma_in_order_prefix(edits: Seq<EditView>)
    requires
        edits_in_order(edits),
        edits.len() > 0,
    ensures
        edits_in_order(edits.drop_last()),
        last_end(edits.drop_last()) <= edits.last().0.start,
{
    let d = edits.drop_last();
    assert forall|i: int, j: int| 0 <= i < j < d.len() implies (#[trigger] d[i]).0.end <= (#[trigger] d[j]).0.start by {
        assert(d[i] == edits[i] && d[j] == edits[j]);
    }
    assert forall|i: int| 0 <= i < d.len() implies (#[trigger] d[i]).0.start <= d[i].0.end by {
        assert(d[i] == edits[i]);
    }
    if d.len() > 0 {
        assert(d.last() == edits[edits.len() - 2]);
        assert(edits[edits.len() - 2].0.end <= edits[edits.len() - 1].0.start);
    }
}

/// A carried offset never falls back past the end of the last edit, nor below 0.
proof fn lemma_transform_lower(x: int, edits: Seq<EditView>)
    requires
        edits_in_order(edits),
        0 <= x,
    ensures
        transform_offset(x, edits) >= x - last_end(edits),
        transform_offset(x, edits) >= 0,
    decreases edits.len(),
{
    if edits.len() > 0 {
        lemma_in_order_prefix(edits);
        lemma_transform_lower(x, edits.drop_last());
        assert(edits.last() == edits[edits.len() - 1]);
    }
}

proof fn lemma_transform_order(a: int, b: int, edits: Seq<EditView>)
    requires
        edits_in_order(edits),
        0 <= a <= b,
    ensures
        transform_offset(a, edits) <= transform_offset(b, edits),
        last_end(edits) <= b ==> transform_offset(b, edits) - transform_offset(a, edits) >= b - (if a > last_end(
            edits,
        ) {
            a
        } else {
            last_end(edits)
        }),
    decreases edits.len(),
{
    if edits.len() > 0 {
        lemma_in_order_prefix(edits);
        lemma_transform_order(a, b, edits.drop_last());
        lemma_transform_lower(b, edits.drop_last());
        lemma_transform_lower(a, edits.drop_last());
        assert(edits.last() == edits[edits.len() - 1]);
    }
}

/// Carrying offsets through edits in order keeps them in order: re-indenting keeps the
/// start of a selection at or before its end.
pub proof fn law_transform_keeps_order(a: int, b: int, edits: Seq<EditView>)
    requires
        edits_in_order(edits),
        0 <= a <= b,
    ensures
        transform_offset(a, edits) <= transform_offset(b, edits),
{
    lemma_transform_order(a, b, edits);
}

} // verus!
