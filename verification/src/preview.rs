//! What the rendered preview shows in place of Markdown source: list markers,
//! checkboxes, and the destinations of links.
use vstd::prelude::*;
use vstd::utf8::*;
use vstd::string::*;
use crate::text::TextRange;
use crate::utf8::{substring, chars_between};
use crate::source::{leading_count, slice_exists, first_match_from, find_bytes, repeated, lemma_leading_count_repeated};
use crate::lists::{MarkdownListMarker, MarkdownTaskState, digit_run, is_digit, list_indent_len};
use crate::list_editing::delimiter_text;
use crate::decimal::{decimal, push_decimal};

verus! {

broadcast use vstd::utf8::group_utf8_lib;

/// The number of leading spaces of a list line.
pub fn list_marker_indent_len(source: &str) -> (n: usize)
    ensures
        n == leading_count(encode_utf8(source@), 32u8),
{
    list_indent_len(source)
}

/// The number of spaces and tabs starting at `m`.
pub open spec fn padding_run(b: Seq<u8>, m: int) -> nat
    decreases b.len() - m,
{
    if 0 <= m < b.len() && (b[m] == 32u8 || b[m] == 9u8) {
        1 + padding_run(b, m + 1)
    } else {
        0
    }
}

/// Where the marker of a list line ends, with the padding after it: after a bullet,
/// or after the digits and delimiter of a number; just the indent otherwise.
pub open spec fn base_marker_end(b: Seq<u8>) -> int {
    let p = leading_count(b, 32u8) as int;
    if p < b.len() && (b[p] == 45u8 || b[p] == 42u8 || b[p] == 43u8) {
        p + 1 + padding_run(b, p + 1)
    } else if p < b.len() && is_digit(b[p]) {
        let m = p + digit_run(b, p) + 1;
        m + padding_run(b, m)
    } else {
        p
    }
}

/// A numbered marker has a byte after its digits.
pub open spec fn marker_fits(b: Seq<u8>) -> bool {
    let p = leading_count(b, 32u8) as int;
    p < b.len() && is_digit(b[p]) ==> p + digit_run(b, p) < b.len()
}

fn count_run<'a>(b: &'a [u8], start: usize, digits: bool) -> (n: usize)
    requires
        start <= b@.len(),
    ensures
        digits ==> n == digit_run(b@, start as int),
        !digits ==> n == padding_run(b@, start as int),
        start + n <= b@.len(),
{
    let len = b.len();
    let mut i = start;
    while i < len && ((digits && 48u8 <= b[i] && b[i] <= 57u8) || (!digits && (b[i] == 32u8 || b[i] == 9u8)))
        invariant
            start <= i <= len == b@.len(),
            digits ==> digit_run(b@, start as int) == (i - start) + digit_run(b@, i as int),
            !digits ==> padding_run(b@, start as int) == (i - start) + padding_run(b@, i as int),
        decreases len - i,
    {
        i += 1;
    }
    i - start
}

pub fn task_list_base_marker_end(source: &str) -> (r: usize)
    requires
        marker_fits(encode_utf8(source@)),
    ensures
        r == base_marker_end(encode_utf8(source@)),
{
    let bytes = source.as_bytes();
    let len = bytes.len();
    let indent_len = list_marker_indent_len(source);
    proof {
        crate::lists::lemma_leading_spaces_end(bytes@);
    }
    if indent_len >= len {
        return indent_len;
    }
    let first = bytes[indent_len];
    let marker_end = if first == 45u8 || first == 42u8 || first == 43u8 {
        indent_len + 1
    } else if 48u8 <= first && first <= 57u8 {
        let digit_len = count_run(bytes, indent_len, true);
        indent_len + digit_len + 1
    } else {
        return indent_len;
    };
    let padding = count_run(bytes, marker_end, false);
    marker_end + padding
}

pub open spec fn task_preview(task: MarkdownTaskState) -> Seq<char> {
    match task {
        MarkdownTaskState::Unchecked => seq!['\u{2610}'],
        MarkdownTaskState::Checked => seq!['\u{2611}'],
    }
}

/// The marker shown in the preview: a checkbox for a task, a bullet for an unordered
/// item, the number and its delimiter for an ordered one.
pub open spec fn marker_preview(marker: MarkdownListMarker, task: Option<MarkdownTaskState>) -> Seq<char> {
    match task {
        Some(t) => task_preview(t),
        None => match marker {
            MarkdownListMarker::Unordered { .. } => seq!['\u{2022}'],
            MarkdownListMarker::Ordered { number, delimiter } => decimal(number as nat) + delimiter_text(delimiter),
        },
    }
}

pub fn task_marker_preview_text(task: MarkdownTaskState) -> (r: &'static str)
    ensures
        r@ == task_preview(task),
{
    proof {
        reveal_strlit("\u{2610}");
        reveal_strlit("\u{2611}");
    }
    match task {
        MarkdownTaskState::Unchecked => "\u{2610}",
        MarkdownTaskState::Checked => "\u{2611}",
    }
}

pub fn list_marker_preview_text(marker: MarkdownListMarker, task: Option<MarkdownTaskState>) -> (r: String)
    ensures
        r@ == marker_preview(marker, task),
{
    if let Some(task) = task {
        return task_marker_preview_text(task).to_owned();
    }
    match marker {
        MarkdownListMarker::Unordered { .. } => {
            proof {
                reveal_strlit("\u{2022}");
            }
            "\u{2022}".to_owned()
        },
        MarkdownListMarker::Ordered { number, delimiter } => {
            let mut out = String::new();
            push_decimal(&mut out, number);
            out.append(crate::list_editing::ordered_list_delimiter(delimiter));
            proof {
                assert(Seq::<char>::empty() + decimal(number as nat) =~= decimal(number as nat));
            }
            out
        },
    }
}

/// The destination of a link whose whole source `[text](destination)` spans `outer`
/// (offsets in the document; the line starts at `line_start`): what stands between the
/// first `](` and the closing `)`, when it is not empty.
pub open spec fn link_destination(line: Seq<char>, line_start: int, outer: TextRange) -> Option<Seq<char>> {
    let b = encode_utf8(line);
    let start = outer.start - line_start;
    let end = outer.end - line_start;
    if start < 0 || end < 0 || !slice_exists(b, start, end) {
        None
    } else {
        let src = b.subrange(start, end);
        match first_match_from(src, seq![93u8, 40u8], 0) {
            None => None,
            Some(sep) => if src.len() >= 2 && src[0] == 91u8 && src[src.len() - 1] == 41u8 && sep + 2 < src.len() - 1 {
                Some(chars_between(line, start + sep + 2, end - 1))
            } else {
                None
            },
        }
    }
}

pub fn link_destination_from_source<'a>(line_source: &'a str, line_start: usize, source_outer_range: TextRange) -> (r: Option<
    &'a str,
>)
    ensures
        match link_destination(line_source@, line_start as int, source_outer_range) {
            Some(d) => r is Some && r->Some_0@ == d,
            None => r is None,
        },
{
    if source_outer_range.start < line_start || source_outer_range.end < line_start {
        return None;
    }
    let start = source_outer_range.start - line_start;
    let end = source_outer_range.end - line_start;
    let bytes = line_source.as_bytes();
    let len = bytes.len();
    if start > end || end > len || !line_source.is_char_boundary(start) || !line_source.is_char_boundary(end) {
        return None;
    }
    let ghost src = bytes@.subrange(start as int, end as int);
    let close: [u8; 2] = [93u8, 40u8];
    proof {
        assert(close@ =~= seq![93u8, 40u8]);
    }
    let separator = match find_bytes(bytes, start, end, close.as_slice()) {
        Some(i) => i,
        None => return None,
    };
    let n = end - start;
    if n < 2 || bytes[start] != 91u8 || bytes[end - 1] != 41u8 || separator + 2 >= n - 1 {
        proof {
            if n >= 2 {
                assert(src[0] == bytes@[start as int]);
                assert(src[src.len() - 1] == bytes@[end - 1]);
            }
        }
        return None;
    }
    proof {
        assert(src[0] == bytes@[start as int]);
        assert(src[src.len() - 1] == bytes@[end - 1]);
        let b = encode_utf8(line_source@);
        assert(src.subrange(separator as int, separator + 2) == seq![93u8, 40u8]) by {
            crate::source::lemma_first_match_found(src, seq![93u8, 40u8], 0);
        }
        assert(b[start + separator + 1] == src[separator + 1]);
        assert(b[end - 1] == 41u8);
        crate::utf8::lemma_boundary_after_ascii(b, start + separator + 2);
        crate::utf8::lemma_boundary_after_ascii(b, end as int);
        assert(b[end - 2] == src[src.len() - 2]);
        is_char_boundary_iff_not_is_continuation_byte(b, end - 1);
    }
    Some(substring(line_source, start + separator + 2, end - 1))
}

/// After the digits of a numbered marker stands an ASCII byte.
pub open spec fn ascii_after_digits(b: Seq<u8>) -> bool {
    let p = leading_count(b, 32u8) as int;
    p < b.len() && is_digit(b[p]) ==> p + digit_run(b, p) < b.len() && b[p + digit_run(b, p)] < 0x80
}

/// The end of a list line's marker and padding lies within the line, on a character
/// boundary.
proof fn lemma_base_marker_end(source: Seq<char>)
    requires
        marker_fits(encode_utf8(source)),
        ascii_after_digits(encode_utf8(source)),
    ensures
        0 <= base_marker_end(encode_utf8(source)) <= encode_utf8(source).len(),
        is_char_boundary(encode_utf8(source), base_marker_end(encode_utf8(source))),
{
    let b = encode_utf8(source);
    let p = leading_count(b, 32u8) as int;
    crate::lists::lemma_leading_spaces_end(b);
    crate::lists::lemma_leading_spaces(b, p);
    is_char_boundary_start_end_of_seq(b);
    let e = base_marker_end(b);
    let m = if p < b.len() && (b[p] == 45u8 || b[p] == 42u8 || b[p] == 43u8) {
        p + 1
    } else if p < b.len() && is_digit(b[p]) {
        crate::lists::lemma_digit_run_prefix(b, p, digit_run(b, p) as int);
        p + digit_run(b, p) + 1
    } else {
        p
    };
    lemma_padding_run(b, m);
    if e > 0 {
        if e > m {
            assert(b[e - 1] == 32u8 || b[e - 1] == 9u8);
        } else if m > p {
            assert(b[m - 1] < 0x80);
        } else {
            assert(b[p - 1] == 32u8);
        }
        crate::utf8::lemma_boundary_after_ascii(b, e);
    }
}

proof fn lemma_padding_run(b: Seq<u8>, m: int)
    requires
        0 <= m <= b.len(),
    ensures
        m + padding_run(b, m) <= b.len(),
        forall|i: int| m <= i < m + padding_run(b, m) ==> (#[trigger] b[i] == 32u8 || b[i] == 9u8),
    decreases b.len() - m,
{
    if m < b.len() && (b[m] == 32u8 || b[m] == 9u8) {
        lemma_padding_run(b, m + 1);
    }
}

proof fn lemma_padding_run_of(b: Seq<u8>, m: int, pad: Seq<u8>)
    requires
        0 <= m,
        m + pad.len() <= b.len(),
        b.subrange(m, m + pad.len()) == pad,
        all_padding(pad),
        m + pad.len() == b.len() || (b[m + pad.len()] != 32u8 && b[m + pad.len()] != 9u8),
    ensures
        padding_run(b, m) == pad.len(),
    decreases pad.len(),
{
    if pad.len() > 0 {
        assert(b[m] == pad[0]);
        assert(b.subrange(m + 1, m + pad.len()) =~= pad.drop_first());
        lemma_padding_run_of(b, m + 1, pad.drop_first());
    }
}

/// Every byte is a space or a tab.
pub open spec fn all_padding(b: Seq<u8>) -> bool {
    forall|i: int| 0 <= i < b.len() ==> b[i] == 32u8 || b[i] == 9u8
}

/// For a line of `indent` spaces, a bullet (`-`, `*` or `+`), a run of spaces and tabs,
/// and then anything that does not start with a space or tab, the marker ends after
/// the indent, the bullet and that run, whichever the bullet is.
pub proof fn law_bullet_marker_end(indent: nat, bullet: u8, pad: Seq<u8>, rest: Seq<u8>)
    requires
        bullet == 45u8 || bullet == 42u8 || bullet == 43u8,
        all_padding(pad),
        rest.len() == 0 || (rest[0] != 32u8 && rest[0] != 9u8),
    ensures
        base_marker_end(repeated(32u8, indent) + seq![bullet] + pad + rest) == indent + 1 + pad.len(),
{
    let tail = seq![bullet] + pad + rest;
    let b = repeated(32u8, indent) + seq![bullet] + pad + rest;
    assert(b =~= repeated(32u8, indent) + tail);
    lemma_leading_count_repeated(32u8, indent, tail);
    let m: int = indent as int + 1;
    assert(b[indent as int] == bullet);
    assert(b.subrange(m, m + pad.len()) =~= pad);
    if rest.len() > 0 {
        assert(b[m + pad.len()] == rest[0]);
    }
    lemma_padding_run_of(b, m, pad);
}

proof fn lemma_digit_run_of(b: Seq<u8>, m: int, digits: Seq<u8>)
    requires
        0 <= m,
        m + digits.len() < b.len(),
        b.subrange(m, m + digits.len()) == digits,
        forall|i: int| 0 <= i < digits.len() ==> is_digit(#[trigger] digits[i]),
        !is_digit(b[m + digits.len()]),
    ensures
        digit_run(b, m) == digits.len(),
    decreases digits.len(),
{
    if digits.len() > 0 {
        assert(b[m] == digits[0]);
        assert(b.subrange(m + 1, m + digits.len()) =~= digits.drop_first());
        lemma_digit_run_of(b, m + 1, digits.drop_first());
    }
}

/// For a line of `indent` spaces, one or more digits, a delimiter, a run of spaces and
/// tabs, and then anything that does not start with a space or tab, the marker ends
/// after the indent, the digits, the delimiter and that run.
pub proof fn law_number_marker_end(indent: nat, digits: Seq<u8>, delimiter: u8, pad: Seq<u8>, rest: Seq<u8>)
    requires
        digits.len() > 0,
        forall|i: int| 0 <= i < digits.len() ==> is_digit(#[trigger] digits[i]),
        !is_digit(delimiter),
        all_padding(pad),
        rest.len() == 0 || (rest[0] != 32u8 && rest[0] != 9u8),
    ensures
        base_marker_end(repeated(32u8, indent) + digits + seq![delimiter] + pad + rest) == indent + digits.len() + 1
            + pad.len(),
{
    let tail = digits + seq![delimiter] + pad + rest;
    let b = repeated(32u8, indent) + digits + seq![delimiter] + pad + rest;
    assert(b =~= repeated(32u8, indent) + tail);
    assert(tail[0] == digits[0]);
    lemma_leading_count_repeated(32u8, indent, tail);
    let p = indent as int;
    assert(b[p] == digits[0]);
    assert(b.subrange(p, p + digits.len()) =~= digits);
    assert(b[p + digits.len()] == delimiter);
    lemma_digit_run_of(b, p, digits);
    let m: int = p + digits.len() + 1;
    assert(b.subrange(m, m + pad.len()) =~= pad);
    if rest.len() > 0 {
        assert(b[m + pad.len()] == rest[0]);
    }
    lemma_padding_run_of(b, m, pad);
}

/// A line whose first byte after its indent is neither a bullet nor a digit has no
/// marker: it ends with the indent.
pub proof fn law_no_marker_end(indent: nat, rest: Seq<u8>)
    requires
        rest.len() == 0 || (rest[0] != 32u8 && rest[0] != 45u8 && rest[0] != 42u8 && rest[0] != 43u8 && !is_digit(
            rest[0],
        )),
    ensures
        base_marker_end(repeated(32u8, indent) + rest) == indent,
{
    lemma_leading_count_repeated(32u8, indent, rest);
    if rest.len() > 0 {
        assert((repeated(32u8, indent) + rest)[indent as int] == rest[0]);
    }
}

/// The part of a list line that stands for its marker in the preview: up to the end of
/// the bullet or number and its padding for a task item, the whole line otherwise.
pub fn hidden_list_content_marker_source(source: &str, is_task_item: bool) -> (r: &str)
    requires
        is_task_item ==> marker_fits(encode_utf8(source@)) && ascii_after_digits(encode_utf8(source@)),
    ensures
        r@ == if is_task_item {
            chars_between(source@, 0, base_marker_end(encode_utf8(source@)))
        } else {
            source@
        },
{
    if !is_task_item {
        return source;
    }
    let end = task_list_base_marker_end(source);
    proof {
        lemma_base_marker_end(source@);
        is_char_boundary_start_end_of_seq(encode_utf8(source@));
    }
    substring(source, 0, end)
}

} // verus!
