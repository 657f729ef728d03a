//! Conversion between UTF-8 byte offsets and UTF-16 code-unit offsets.
use vstd::prelude::*;
use vstd::utf8::*;
use crate::utf8::{lemma_char_step, scalar_width_at, char_utf8_len};
use std::ops::Range;

verus! {

broadcast use vstd::utf8::group_utf8_lib;

/// The number of UTF-16 code units that encode `c`.
pub open spec fn char_utf16_len(c: char) -> int {
    if (c as u32) >= 0x10000 {
        2
    } else {
        1
    }
}

/// The UTF-16 offset reached by walking characters from the start while fewer than
/// `offset` bytes have been passed.
pub open spec fn utf16_at_byte(s: Seq<char>, offset: int) -> int
    decreases s.len(),
{
    if s.len() == 0 || offset <= 0 {
        0
    } else {
        char_utf16_len(s[0]) + utf16_at_byte(s.drop_first(), offset - char_utf8_len(s[0]))
    }
}

/// The byte offset reached by walking characters from the start while fewer than
/// `offset` UTF-16 code units have been passed.
pub open spec fn byte_at_utf16(s: Seq<char>, offset: int) -> int
    decreases s.len(),
{
    if s.len() == 0 || offset <= 0 {
        0
    } else {
        char_utf8_len(s[0]) + byte_at_utf16(s.drop_first(), offset - char_utf16_len(s[0]))
    }
}

/// A character takes two UTF-16 units exactly when it takes four UTF-8 bytes.
proof fn lemma_utf16_width(c: char)
    ensures
        1 <= char_utf8_len(c) <= 4,
        char_utf16_len(c) == (if char_utf8_len(c) == 4 {
            2int
        } else {
            1int
        }),
        char_utf16_len(c) <= char_utf8_len(c),
{
    char_is_scalar(c);
}

/// Walking `k` characters in: the remaining offsets are measured from there.
proof fn lemma_walk(s: Seq<char>, k: int)
    requires
        0 <= k < s.len(),
    ensures
        s.skip(k).len() > 0,
        s.skip(k)[0] == s[k],
        s.skip(k).drop_first() == s.skip(k + 1),
{
    assert(s.skip(k).drop_first() =~= s.skip(k + 1));
}

pub fn byte_offset_to_utf16(text: &str, offset: usize) -> (r: usize)
    ensures
        r == utf16_at_byte(text@, offset as int),
{
    let bytes = text.as_bytes();
    let n = bytes.len();
    let ghost s = text@;
    let mut utf16_offset: usize = 0;
    let mut byte_offset: usize = 0;
    let ghost mut k: int = 0;
    proof {
        assert(s.skip(0) =~= s);
        assert(bytes@.subrange(0, n as int) =~= bytes@);
    }
    while byte_offset < n && byte_offset < offset
        invariant
            n == bytes@.len(),
            bytes@ == encode_utf8(s),
            0 <= k <= s.len(),
            byte_offset <= n,
            bytes@.subrange(byte_offset as int, n as int) == encode_utf8(s.skip(k)),
            utf16_offset <= byte_offset,
            utf16_at_byte(s, offset as int) == utf16_offset + utf16_at_byte(s.skip(k), offset - byte_offset),
            (k < s.len()) <==> (byte_offset < n),
        decreases n - byte_offset,
    {
        proof {
            lemma_char_step(s, k);
            lemma_walk(s, k);
            lemma_utf16_width(s[k]);
        }
        let w = scalar_width_at(bytes, byte_offset, n);
        proof {
            assert(bytes@.subrange(byte_offset + w, n as int) =~= bytes@.subrange(byte_offset as int, n as int).subrange(w as int, n - byte_offset));
            if k + 1 < s.len() {
                lemma_char_step(s, k + 1);
            } else {
                assert(s.skip(k + 1) =~= Seq::<char>::empty());
            }
        }
        let units: usize = if w == 4 { 2 } else { 1 };
        byte_offset = byte_offset + w;
        utf16_offset = utf16_offset + units;
        proof {
            k = k + 1;
        }
    }
    proof {
        if k < s.len() {
            assert(offset <= byte_offset);
        } else {
            assert(s.skip(k) =~= Seq::<char>::empty());
        }
    }
    utf16_offset
}

pub fn utf16_offset_to_byte(text: &str, offset: usize) -> (r: usize)
    ensures
        r == byte_at_utf16(text@, offset as int),
        r <= encode_utf8(text@).len(),
        is_char_boundary(encode_utf8(text@), r as int),
{
    proof {
        law_utf16_offset_lands_on_boundary(text@, offset as int);
    }
    let bytes = text.as_bytes();
    let n = bytes.len();
    let ghost s = text@;
    let mut utf16_offset: usize = 0;
    let mut byte_offset: usize = 0;
    let ghost mut k: int = 0;
    proof {
        assert(s.skip(0) =~= s);
        assert(bytes@.subrange(0, n as int) =~= bytes@);
    }
    while byte_offset < n && utf16_offset < offset
        invariant
            n == bytes@.len(),
            bytes@ == encode_utf8(s),
            0 <= k <= s.len(),
            byte_offset <= n,
            bytes@.subrange(byte_offset as int, n as int) == encode_utf8(s.skip(k)),
            utf16_offset <= byte_offset,
            byte_at_utf16(s, offset as int) == byte_offset + byte_at_utf16(s.skip(k), offset - utf16_offset),
            (k < s.len()) <==> (byte_offset < n),
        decreases n - byte_offset,
    {
        proof {
            lemma_char_step(s, k);
            lemma_walk(s, k);
            lemma_utf16_width(s[k]);
        }
        let w = scalar_width_at(bytes, byte_offset, n);
        proof {
            assert(bytes@.subrange(byte_offset + w, n as int) =~= bytes@.subrange(byte_offset as int, n as int).subrange(w as int, n - byte_offset));
            if k + 1 < s.len() {
                lemma_char_step(s, k + 1);
            } else {
                assert(s.skip(k + 1) =~= Seq::<char>::empty());
            }
        }
        let units: usize = if w == 4 { 2 } else { 1 };
        byte_offset = byte_offset + w;
        utf16_offset = utf16_offset + units;
        proof {
            k = k + 1;
        }
    }
    proof {
        if k < s.len() {
            assert(offset <= utf16_offset);
        } else {
            assert(s.skip(k) =~= Seq::<char>::empty());
        }
    }
    byte_offset
}

pub fn utf16_range_to_byte(text: &str, range: &Range<usize>) -> (r: Range<usize>)
    ensures
        r.start == byte_at_utf16(text@, range.start as int),
        r.end == byte_at_utf16(text@, range.end as int),
{
    let start = utf16_offset_to_byte(text, range.start);
    let end = utf16_offset_to_byte(text, range.end);
    Range { start, end }
}

/// Converting a byte offset on a character boundary to UTF-16 and back gives the
/// same byte offset.
pub proof fn law_utf16_round_trip(s: Seq<char>, offset: int)
    requires
        is_char_boundary(encode_utf8(s), offset),
    ensures
        byte_at_utf16(s, utf16_at_byte(s, offset)) == offset,
    decreases s.len(),
{
    let bytes = encode_utf8(s);
    if offset == 0 {
    } else {
        assert(offset > 0 && offset <= bytes.len());
        assert(s.len() > 0);
        lemma_char_step(s, 0);
        assert(s.skip(0) =~= s);
        assert(s.skip(1) =~= s.drop_first());
        let w = char_utf8_len(s[0]);
        assert(pop_first_scalar(bytes) =~= encode_utf8(s.drop_first()));
        assert(is_char_boundary(encode_utf8(s.drop_first()), offset - w));
        lemma_utf16_width(s[0]);
        law_utf16_round_trip(s.drop_first(), offset - w);
    }
}

/// Every UTF-16 offset, in range or not, converts to a byte offset within the text
/// that falls on a character boundary.
pub proof fn law_utf16_offset_lands_on_boundary(s: Seq<char>, offset: int)
    ensures
        0 <= byte_at_utf16(s, offset) <= encode_utf8(s).len(),
        is_char_boundary(encode_utf8(s), byte_at_utf16(s, offset)),
    decreases s.len(),
{
    let bytes = encode_utf8(s);
    if s.len() == 0 || offset <= 0 {
    } else {
        lemma_char_step(s, 0);
        assert(s.skip(0) =~= s);
        assert(s.skip(1) =~= s.drop_first());
        let w = char_utf8_len(s[0]);
        assert(pop_first_scalar(bytes) =~= encode_utf8(s.drop_first()));
        lemma_utf16_width(s[0]);
        law_utf16_offset_lands_on_boundary(s.drop_first(), offset - char_utf16_len(s[0]));
    }
}

} // verus!
