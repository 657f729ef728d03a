//! Recognizing Markdown list items and block quotes on a single line, and writing
//! the marker that continues a list.
use vstd::prelude::*;
use vstd::utf8::*;
use crate::source::{leading_count, count_leading};

verus! {

broadcast use vstd::utf8::group_utf8_lib;

/// The delimiter after the number of an ordered list item.
#[derive(Debug, Clone, Copy, PartialEq, Eq, Structural)]
pub enum OrderedListDelimiter {
    Dot,
    Paren,
}

/// The marker that starts a list item.
#[derive(Debug, Clone, Copy, PartialEq, Eq, Structural)]
pub enum MarkdownListMarker {
    Unordered { marker: char },
    Ordered { number: u64, delimiter: OrderedListDelimiter },
}

/// The checkbox state of a task list item.
#[derive(Debug, Clone, Copy, PartialEq, Eq, Structural)]
pub enum MarkdownTaskState {
    Unchecked,
    Checked,
}

/// A recognized list item line: its marker, its checkbox, and where its content starts.
#[derive(Debug, Clone, Copy, PartialEq, Eq, Structural)]
pub struct ListItem {
    pub marker: MarkdownListMarker,
    pub task: Option<MarkdownTaskState>,
    pub content_start: usize,
}

pub open spec fn is_digit(c: u8) -> bool {
    48 <= c <= 57
}

/// The byte at `p` is a space, or `p` is the end of the line.
pub open spec fn space_or_end(b: Seq<u8>, p: int) -> bool {
    p == b.len() || (0 <= p < b.len() && b[p] == 32u8)
}

/// The number of consecutive ASCII digits starting at `p`.
pub open spec fn digit_run(b: Seq<u8>, p: int) -> nat
    decreases b.len() - p,
{
    if 0 <= p < b.len() && is_digit(b[p]) {
        1 + digit_run(b, p + 1)
    } else {
        0
    }
}

/// The decimal value of the `n` digits starting at `p`.
pub open spec fn digits_value(b: Seq<u8>, p: int, n: int) -> nat
    decreases n,
{
    if n <= 0 {
        0
    } else {
        digits_value(b, p, n - 1) * 10 + (b[p + n - 1] - 48) as nat
    }
}

pub open spec fn pow10(n: nat) -> nat
    decreases n,
{
    if n == 0 {
        1
    } else {
        10 * pow10((n - 1) as nat)
    }
}

/// The list marker after the leading spaces: a bullet `-`, `+` or `*`, or one to
/// nine digits and `.` or `)`, followed by a space or the end of the line; with the
/// position right after the marker.
pub open spec fn list_marker_of(b: Seq<u8>) -> Option<(MarkdownListMarker, int)> {
    let p = leading_count(b, 32u8) as int;
    if p < b.len() && (b[p] == 45u8 || b[p] == 43u8 || b[p] == 42u8) && space_or_end(b, p + 1) {
        let marker = if b[p] == 45u8 {
            '-'
        } else if b[p] == 43u8 {
            '+'
        } else {
            '*'
        };
        Some((MarkdownListMarker::Unordered { marker }, p + 1))
    } else {
        let n = digit_run(b, p) as int;
        if 1 <= n <= 9 && p + n < b.len() && (b[p + n] == 46u8 || b[p + n] == 41u8) && space_or_end(b, p + n + 1) {
            let delimiter = if b[p + n] == 46u8 {
                OrderedListDelimiter::Dot
            } else {
                OrderedListDelimiter::Paren
            };
            Some((MarkdownListMarker::Ordered { number: digits_value(b, p, n) as u64, delimiter }, p + n + 1))
        } else {
            None
        }
    }
}

/// A checkbox `[ ]`, `[x]` or `[X]` at `c`, followed by a space or the end of the line.
pub open spec fn task_at(b: Seq<u8>, c: int) -> Option<MarkdownTaskState> {
    if 0 <= c && c + 3 <= b.len() && b[c] == 91u8 && b[c + 2] == 93u8 && space_or_end(b, c + 3) {
        if b[c + 1] == 32u8 {
            Some(MarkdownTaskState::Unchecked)
        } else if b[c + 1] == 120u8 || b[c + 1] == 88u8 {
            Some(MarkdownTaskState::Checked)
        } else {
            None
        }
    } else {
        None
    }
}

/// The list item that a line starts, if any: its marker, an optional checkbox after
/// one space, and the content after one more space.
pub open spec fn list_item_of(b: Seq<u8>) -> Option<ListItem> {
    match list_marker_of(b) {
        None => None,
        Some((marker, after)) => {
            let c = if after < b.len() { after + 1 } else { after };
            match task_at(b, c) {
                Some(t) => Some(
                    ListItem {
                        marker,
                        task: Some(t),
                        content_start: (if c + 3 < b.len() { c + 4 } else { c + 3 }) as usize,
                    },
                ),
                None => Some(ListItem { marker, task: None, content_start: c as usize }),
            }
        },
    }
}

/// Where the content of a block quote line starts: after at most three spaces, `>`,
/// and one optional space.
pub open spec fn blockquote_start_of(b: Seq<u8>) -> Option<int> {
    let k = leading_count(b, 32u8) as int;
    if k <= 3 && k < b.len() && b[k] == 62u8 {
        if k + 1 < b.len() && b[k + 1] == 32u8 {
            Some(k + 2)
        } else {
            Some(k + 1)
        }
    } else {
        None
    }
}

/// Twenty decimal digits hold every `u64`.
pub proof fn lemma_pow10_twenty()
    ensures
        pow10(9) == 1_000_000_000,
        pow10(20) > u64::MAX,
{
    assert(pow10(0) == 1);
    assert(pow10(1) == 10);
    assert(pow10(2) == 100);
    assert(pow10(3) == 1000);
    assert(pow10(4) == 10000);
    assert(pow10(5) == 100000);
    assert(pow10(6) == 1000000);
    assert(pow10(7) == 10000000);
    assert(pow10(8) == 100000000);
    assert(pow10(9) == 1000000000);
    assert(pow10(10) == 10000000000);
    assert(pow10(11) == 100000000000);
    assert(pow10(12) == 1000000000000);
    assert(pow10(13) == 10000000000000);
    assert(pow10(14) == 100000000000000);
    assert(pow10(15) == 1000000000000000);
    assert(pow10(16) == 10000000000000000);
    assert(pow10(17) == 100000000000000000);
    assert(pow10(18) == 1000000000000000000);
    assert(pow10(19) == 10000000000000000000);
    assert(pow10(20) == 100000000000000000000);
}

pub proof fn lemma_digit_run_split(b: Seq<u8>, p: int, n: int)
    requires
        0 <= p,
        0 <= n,
        p + n <= b.len(),
        forall|i: int| p <= i < p + n ==> is_digit(#[trigger] b[i]),
    ensures
        digit_run(b, p) == n + digit_run(b, p + n),
    decreases n,
{
    if n > 0 {
        lemma_digit_run_split(b, p + 1, n - 1);
    }
}

proof fn lemma_pow10_bound(n: nat)
    requires
        n <= 10,
    ensures
        pow10(n) <= 10_000_000_000,
        pow10(n) >= 1,
{
    assert(pow10(0) == 1);
    assert(pow10(1) == 10);
    assert(pow10(2) == 100);
    assert(pow10(3) == 1000);
    assert(pow10(4) == 10000);
    assert(pow10(5) == 100000);
    assert(pow10(6) == 1000000);
    assert(pow10(7) == 10000000);
    assert(pow10(8) == 100000000);
    assert(pow10(9) == 1000000000);
    assert(pow10(10) == 10000000000);
}

pub proof fn lemma_leading_spaces(b: Seq<u8>, k: int)
    requires
        0 <= k <= leading_count(b, 32u8),
    ensures
        k <= b.len(),
        forall|i: int| 0 <= i < k ==> b[i] == 32u8,
    decreases k,
{
    if k > 0 {
        lemma_leading_spaces(b.drop_first(), k - 1);
        assert forall|i: int| 0 <= i < k implies b[i] == 32u8 by {
            if i > 0 {
                assert(b.drop_first()[i - 1] == b[i]);
            }
        }
    }
}

/// The leading spaces of a line stop at a byte that is not a space.
pub proof fn lemma_leading_spaces_end(b: Seq<u8>)
    ensures
        leading_count(b, 32u8) <= b.len(),
        leading_count(b, 32u8) < b.len() ==> b[leading_count(b, 32u8) as int] != 32u8,
    decreases b.len(),
{
    if b.len() > 0 && b[0] == 32u8 {
        lemma_leading_spaces_end(b.drop_first());
        let n = leading_count(b.drop_first(), 32u8);
        if n < b.drop_first().len() {
            assert(b.drop_first()[n as int] == b[n as int + 1]);
        }
    }
}

/// The number of leading spaces of a line.
pub fn list_indent_len(line: &str) -> (n: usize)
    ensures
        n == leading_count(encode_utf8(line@), 32u8),
        n <= encode_utf8(line@).len(),
{
    let b = line.as_bytes();
    let len = b.len();
    proof {
        assert(b@.subrange(0, len as int) =~= b@);
    }
    count_leading(b, 0, len, 32u8)
}

/// Reads the one to nine digits at `p` and the delimiter after them.
fn ordered_marker(b: &[u8], p: usize) -> (r: Option<(MarkdownListMarker, usize)>)
    requires
        p <= b@.len(),
    ensures
        ({
            let n = digit_run(b@, p as int) as int;
            if 1 <= n <= 9 && p + n < b@.len() && (b@[p + n] == 46u8 || b@[p + n] == 41u8) && space_or_end(
                b@,
                p + n + 1,
            ) {
                r == Some(
                    (
                        MarkdownListMarker::Ordered {
                            number: digits_value(b@, p as int, n) as u64,
                            delimiter: if b@[p + n] == 46u8 {
                                OrderedListDelimiter::Dot
                            } else {
                                OrderedListDelimiter::Paren
                            },
                        },
                        (p + n + 1) as usize,
                    ),
                )
            } else {
                r is None
            }
        }),
{
    let len = b.len();
    let mut n: usize = 0;
    let mut value: u64 = 0;
    while p + n < len && n < 10 && 48u8 <= b[p + n] && b[p + n] <= 57u8
        invariant
            p <= len == b@.len(),
            n <= 10,
            p + n <= len,
            forall|i: int| p <= i < p + n ==> is_digit(#[trigger] b@[i]),
            value == digits_value(b@, p as int, n as int),
            value < pow10(n as nat),
        decreases 10 - n,
    {
        let d = (b[p + n] - 48u8) as u64;
        proof {
            lemma_pow10_bound(n as nat);
            assert(pow10((n + 1) as nat) == 10 * pow10(n as nat));
            assert(value * 10 + d < pow10((n + 1) as nat)) by (nonlinear_arith)
                requires
                    value < pow10(n as nat),
                    d < 10,
                    pow10((n + 1) as nat) == 10 * pow10(n as nat),
            ;
            lemma_pow10_bound((n + 1) as nat);
        }
        value = value * 10 + d;
        n = n + 1;
    }
    proof {
        lemma_digit_run_split(b@, p as int, n as int);
    }
    if n == 0 || n > 9 {
        return None;
    }
    if p + n >= len {
        return None;
    }
    let delimiter_byte = b[p + n];
    if delimiter_byte != 46u8 && delimiter_byte != 41u8 {
        return None;
    }
    if p + n + 1 < len && b[p + n + 1] != 32u8 {
        return None;
    }
    let delimiter = if delimiter_byte == 46u8 {
        OrderedListDelimiter::Dot
    } else {
        OrderedListDelimiter::Paren
    };
    Some((MarkdownListMarker::Ordered { number: value, delimiter }, p + n + 1))
}

fn list_marker(b: &[u8], p: usize) -> (r: Option<(MarkdownListMarker, usize)>)
    requires
        p == leading_count(b@, 32u8),
        p <= b@.len(),
    ensures
        match list_marker_of(b@) {
            Some((m, after)) => r == Some((m, after as usize)),
            None => r is None,
        },
{
    let len = b.len();
    if p < len && (b[p] == 45u8 || b[p] == 43u8 || b[p] == 42u8) && (p + 1 == len || b[p + 1] == 32u8) {
        let marker = if b[p] == 45u8 {
            '-'
        } else if b[p] == 43u8 {
            '+'
        } else {
            '*'
        };
        return Some((MarkdownListMarker::Unordered { marker }, p + 1));
    }
    ordered_marker(b, p)
}

fn task_state_at(b: &[u8], c: usize) -> (r: Option<MarkdownTaskState>)
    requires
        c <= b@.len(),
    ensures
        r == task_at(b@, c as int),
{
    let len = b.len();
    if len - c >= 3 && b[c] == 91u8 && b[c + 2] == 93u8 && (len - c == 3 || b[c + 3] == 32u8) {
        if b[c + 1] == 32u8 {
            Some(MarkdownTaskState::Unchecked)
        } else if b[c + 1] == 120u8 || b[c + 1] == 88u8 {
            Some(MarkdownTaskState::Checked)
        } else {
            None
        }
    } else {
        None
    }
}

/// The list item that `line` starts, if any.
pub fn list_item(line: &str) -> (r: Option<ListItem>)
    ensures
        r == list_item_of(encode_utf8(line@)),
{
    let b = line.as_bytes();
    let len = b.len();
    let p = list_indent_len(line);
    let (marker, after) = match list_marker(b, p) {
        Some(x) => x,
        None => return None,
    };
    let c = if after < len { after + 1 } else { after };
    match task_state_at(b, c) {
        Some(t) => {
            let content_start = if c + 3 < len { c + 4 } else { c + 3 };
            Some(ListItem { marker, task: Some(t), content_start })
        },
        None => Some(ListItem { marker, task: None, content_start: c }),
    }
}

/// Where the content of a block quote line starts, if the line is one.
pub fn blockquote_content_start(line: &str) -> (r: Option<usize>)
    ensures
        match blockquote_start_of(encode_utf8(line@)) {
            Some(k) => r == Some(k as usize),
            None => r is None,
        },
{
    let b = line.as_bytes();
    let len = b.len();
    let k = list_indent_len(line);
    if k <= 3 && k < len && b[k] == 62u8 {
        if k + 1 < len && b[k + 1] == 32u8 {
            Some(k + 2)
        } else {
            Some(k + 1)
        }
    } else {
        None
    }
}

/// A content start found by the recognizers above lies on a character boundary,
/// right after an ASCII byte.
pub proof fn lemma_ascii_prefix_boundary(line: Seq<char>, k: int)
    requires
        1 <= k <= encode_utf8(line).len(),
        encode_utf8(line)[k - 1] < 0x80,
    ensures
        is_char_boundary(encode_utf8(line), k),
{
    crate::utf8::lemma_boundary_after_ascii(encode_utf8(line), k);
}

/// The bytes of a list item's marker and checkbox are ASCII, so its content starts on
/// a character boundary, after the leading spaces.
pub proof fn lemma_list_item_bounds(line: Seq<char>)
    requires
        list_item_of(encode_utf8(line)) is Some,
        encode_utf8(line).len() <= usize::MAX,
    ensures
        ({
            let b = encode_utf8(line);
            let c = list_item_of(b)->Some_0.content_start as int;
            &&& leading_count(b, 32u8) < c <= b.len()
            &&& is_char_boundary(b, c)
            &&& is_char_boundary(b, leading_count(b, 32u8) as int)
            &&& forall|i: int| 0 <= i < leading_count(b, 32u8) ==> b[i] == 32u8
        }),
{
    let b = encode_utf8(line);
    let p = leading_count(b, 32u8) as int;
    lemma_leading_spaces(b, p);
    lemma_leading_spaces_end(b);
    let (m, after) = list_marker_of(b)->Some_0;
    if p < b.len() && (b[p] == 45u8 || b[p] == 43u8 || b[p] == 42u8) && space_or_end(b, p + 1) {
        assert(after == p + 1);
        assert(b[after - 1] < 0x80);
    } else {
        let n = digit_run(b, p) as int;
        lemma_digit_run_prefix(b, p, n);
        assert(after == p + n + 1);
        assert(b[after - 1] < 0x80);
    }
    let c = if after < b.len() { after + 1 } else { after };
    assert(b[c - 1] < 0x80);
    let start = list_item_of(b)->Some_0.content_start as int;
    if task_at(b, c) is Some {
        if c + 3 < b.len() {
            assert(start == c + 4 && b[c + 3] == 32u8);
        } else {
            assert(start == c + 3 && b[c + 2] == 93u8);
        }
    } else {
        assert(start == c);
    }
    lemma_ascii_prefix_boundary(line, start);
    if p > 0 {
        lemma_ascii_prefix_boundary(line, p);
    } else {
        is_char_boundary_start_end_of_seq(b);
    }
}

pub proof fn lemma_digit_run_prefix(b: Seq<u8>, p: int, n: int)
    requires
        0 <= p <= b.len(),
        0 <= n <= digit_run(b, p),
    ensures
        p + n <= b.len(),
        forall|i: int| p <= i < p + n ==> is_digit(#[trigger] b[i]),
    decreases n,
{
    if n > 0 {
        lemma_digit_run_prefix(b, p + 1, n - 1);
    }
}

/// The content of a block quote line starts on a character boundary after ASCII bytes.
pub proof fn lemma_blockquote_bounds(line: Seq<char>)
    requires
        blockquote_start_of(encode_utf8(line)) is Some,
    ensures
        ({
            let b = encode_utf8(line);
            let c = blockquote_start_of(b)->Some_0;
            &&& 1 <= c <= b.len()
            &&& is_char_boundary(b, c)
        }),
{
    let b = encode_utf8(line);
    let k = leading_count(b, 32u8) as int;
    lemma_leading_spaces(b, k);
    let c = blockquote_start_of(b)->Some_0;
    lemma_ascii_prefix_boundary(line, c);
}

} // verus!
