//! UTF-8 facts shared by the text modules: every offset of this crate is a byte
//! offset into `encode_utf8` of the source's characters.
use vstd::prelude::*;
use vstd::utf8::*;

verus! {

broadcast use vstd::utf8::group_utf8_lib;

/// The bytes of a character sequence.
pub open spec fn bytes_of(s: Seq<char>) -> Seq<u8> {
    encode_utf8(s)
}

/// The byte length of a character sequence.
pub open spec fn byte_len(s: Seq<char>) -> int {
    encode_utf8(s).len() as int
}

/// True when `offset` is a character boundary of the encoding of `s`.
pub open spec fn is_boundary(s: Seq<char>, offset: int) -> bool {
    is_char_boundary(encode_utf8(s), offset)
}

/// The encoding of a concatenation is the concatenation of the encodings.
pub proof fn lemma_encode_concat(a: Seq<char>, b: Seq<char>)
    ensures
        encode_utf8(a + b) == encode_utf8(a) + encode_utf8(b),
    decreases a.len(),
{
    if a.len() == 0 {
        assert(a + b =~= b);
        assert(encode_utf8(a) + encode_utf8(b) =~= encode_utf8(b));
    } else {
        assert((a + b).drop_first() =~= a.drop_first() + b);
        assert((a + b)[0] == a[0]);
        lemma_encode_concat(a.drop_first(), b);
        assert(encode_utf8(a + b) =~= encode_utf8(a) + encode_utf8(b));
    }
}

/// The end of a prefix of characters is a character boundary of the whole encoding.
pub proof fn lemma_prefix_boundary(a: Seq<char>, b: Seq<char>)
    ensures
        is_char_boundary(encode_utf8(a + b), encode_utf8(a).len() as int),
    decreases a.len(),
{
    if a.len() > 0 {
        let s = a + b;
        lemma_char_step(s, 0);
        lemma_char_step(a, 0);
        assert(s.skip(0) =~= s);
        assert(a.skip(0) =~= a);
        assert(s.take(0) =~= Seq::<char>::empty());
        assert(a.take(0) =~= Seq::<char>::empty());
        assert(s.skip(1) =~= a.drop_first() + b);
        assert(a.skip(1) =~= a.drop_first());
        assert(s[0] == a[0]);
        assert(pop_first_scalar(encode_utf8(s)) =~= encode_utf8(a.drop_first() + b));
        lemma_prefix_boundary(a.drop_first(), b);
    }
}

/// A character boundary of a valid sequence that lies before a boundary `end`
/// is also a boundary of the prefix ending at `end`.
pub proof fn lemma_boundary_in_prefix(bytes: Seq<u8>, end: int, index: int)
    requires
        valid_utf8(bytes),
        0 <= index <= end <= bytes.len(),
        is_char_boundary(bytes, end),
        is_char_boundary(bytes, index),
    ensures
        valid_utf8(bytes.subrange(0, end)),
        is_char_boundary(bytes.subrange(0, end), index),
{
    let prefix = bytes.subrange(0, end);
    assert(valid_utf8(prefix));
    if index == end {
        is_char_boundary_start_end_of_seq(prefix);
    } else if index == 0 {
    } else {
        is_char_boundary_iff_not_is_continuation_byte(bytes, index);
        is_char_boundary_iff_not_is_continuation_byte(prefix, index);
        assert(prefix[index] == bytes[index]);
    }
}

/// A character boundary at or after a boundary `start` is a boundary of the suffix
/// that begins at `start`.
pub proof fn lemma_boundary_in_suffix(bytes: Seq<u8>, start: int, index: int)
    requires
        valid_utf8(bytes),
        0 <= start <= index <= bytes.len(),
        is_char_boundary(bytes, start),
        is_char_boundary(bytes, index),
    ensures
        valid_utf8(bytes.subrange(start, bytes.len() as int)),
        is_char_boundary(bytes.subrange(start, bytes.len() as int), index - start),
{
    let suffix = bytes.subrange(start, bytes.len() as int);
    assert(valid_utf8(suffix));
    if index == bytes.len() {
        is_char_boundary_start_end_of_seq(suffix);
        assert(suffix.len() == index - start);
    } else if index == start {
    } else {
        is_char_boundary_iff_not_is_continuation_byte(bytes, index);
        is_char_boundary_iff_not_is_continuation_byte(suffix, index - start);
        assert(suffix[index - start] == bytes[index]);
    }
}

/// The characters between two byte boundaries of `s`.
pub open spec fn chars_between(s: Seq<char>, start: int, end: int) -> Seq<char> {
    decode_utf8(encode_utf8(s).subrange(start, end))
}

/// The sub-slice of `s` between two character boundaries.
pub fn substring(s: &str, start: usize, end: usize) -> (r: &str)
    requires
        start <= end <= encode_utf8(s@).len(),
        is_char_boundary(encode_utf8(s@), start as int),
        is_char_boundary(encode_utf8(s@), end as int),
    ensures
        encode_utf8(r@) == encode_utf8(s@).subrange(start as int, end as int),
        r@ == chars_between(s@, start as int, end as int),
{
    let ghost bytes = encode_utf8(s@);
    proof {
        lemma_boundary_in_prefix(bytes, end as int, start as int);
    }
    let (head, _) = s.split_at(end);
    assert(encode_utf8(head@) == bytes.subrange(0, end as int));
    let (_, mid) = head.split_at(start);
    assert(encode_utf8(mid@) =~= bytes.subrange(start as int, end as int));
    proof {
        encode_utf8_decode_utf8(mid@);
    }
    mid
}

} // verus!

verus! {

/// Walking one character forward: the prefix grows by the encoding of the next
/// character, and the remaining suffix loses it.
pub proof fn lemma_char_step(s: Seq<char>, c: int)
    requires
        0 <= c < s.len(),
    ensures
        encode_utf8(s.take(c + 1)) == encode_utf8(s.take(c)) + encode_scalar(s[c] as u32),
        encode_utf8(s.skip(c)) == encode_scalar(s[c] as u32) + encode_utf8(s.skip(c + 1)),
        encode_utf8(s) == encode_utf8(s.take(c)) + encode_utf8(s.skip(c)),
        length_of_first_scalar(encode_utf8(s.skip(c))) == encode_scalar(s[c] as u32).len(),
        valid_first_scalar(encode_utf8(s.skip(c))),
{
    let single = seq![s[c]];
    assert(s.take(c + 1) =~= s.take(c) + single);
    lemma_encode_concat(s.take(c), single);
    assert(single.drop_first() =~= Seq::<char>::empty());
    assert(single[0] == s[c]);
    assert(encode_utf8(single.drop_first()) =~= Seq::<u8>::empty());
    assert(encode_utf8(single) =~= encode_scalar(s[c] as u32) + encode_utf8(single.drop_first()));
    assert(encode_utf8(single) =~= encode_scalar(s[c] as u32));
    assert(s.skip(c)[0] == s[c]);
    assert(s.skip(c).drop_first() =~= s.skip(c + 1));
    assert(s =~= s.take(c) + s.skip(c));
    lemma_encode_concat(s.take(c), s.skip(c));
    encode_utf8_first_scalar(s.skip(c));
}

/// The byte length of the encoding of a single character.
pub open spec fn char_utf8_len(c: char) -> int {
    encode_scalar(c as u32).len() as int
}

/// The width of the scalar whose encoding starts with the leading byte `b`.
pub fn leading_byte_width(b: u8) -> (w: usize)
    ensures
        is_leading_byte_width_1(b) ==> w == 1,
        is_leading_byte_width_2(b) ==> w == 2,
        is_leading_byte_width_3(b) ==> w == 3,
        is_leading_byte_width_4(b) ==> w == 4,
        1 <= w <= 4,
{
    if b < 0x80 {
        1
    } else if b < 0xe0 {
        2
    } else if b < 0xf0 {
        3
    } else {
        4
    }
}

/// The width of the first scalar of `bytes[i..end]`, read from its leading byte.
pub fn scalar_width_at(bytes: &[u8], i: usize, end: usize) -> (w: usize)
    requires
        i < end <= bytes@.len(),
        valid_first_scalar(bytes@.subrange(i as int, end as int)),
    ensures
        w == length_of_first_scalar(bytes@.subrange(i as int, end as int)),
        1 <= w <= 4,
{
    let b = bytes[i];
    assert(bytes@.subrange(i as int, end as int)[0] == b);
    leading_byte_width(b)
}

/// True when the byte before `k` is an ASCII byte: then `k` is a character boundary.
pub proof fn lemma_boundary_after_ascii(bytes: Seq<u8>, k: int)
    requires
        valid_utf8(bytes),
        1 <= k <= bytes.len(),
        bytes[k - 1] < 0x80,
    ensures
        is_char_boundary(bytes, k),
{
    if k == bytes.len() {
        is_char_boundary_start_end_of_seq(bytes);
    } else {
        is_char_boundary_iff_not_is_continuation_byte(bytes, k - 1);
        let suffix = bytes.subrange(k - 1, bytes.len() as int);
        lemma_boundary_in_suffix(bytes, k - 1, k - 1);
        assert(suffix[0] == bytes[k - 1]);
        assert(valid_first_scalar(suffix));
        assert(length_of_first_scalar(suffix) == 1);
        reveal_with_fuel(is_char_boundary, 2);
        assert(is_char_boundary(pop_first_scalar(suffix), 0));
        assert(is_char_boundary(suffix, 1));
        is_char_boundary_iff_not_is_continuation_byte(suffix, 1);
        assert(suffix[1] == bytes[k]);
        is_char_boundary_iff_not_is_continuation_byte(bytes, k);
    }
}

} // verus!
