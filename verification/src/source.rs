//! Byte-level queries on a source string: slices that must land on character
//! boundaries, prefixes, and marker matches.
use vstd::prelude::*;
use vstd::utf8::*;
use crate::utf8::{substring, chars_between};

verus! {

broadcast use vstd::utf8::group_utf8_lib;

/// `text.get(start..end)` exists and holds exactly the bytes `m`.
pub open spec fn slice_is(b: Seq<u8>, start: int, end: int, m: Seq<u8>) -> bool {
    &&& 0 <= start <= end <= b.len()
    &&& is_char_boundary(b, start)
    &&& is_char_boundary(b, end)
    &&& b.subrange(start, end) == m
}

/// `text.get(offset..)` exists and starts with the bytes `m`.
pub open spec fn suffix_starts_with(b: Seq<u8>, offset: int, m: Seq<u8>) -> bool {
    &&& 0 <= offset <= b.len()
    &&& is_char_boundary(b, offset)
    &&& offset + m.len() <= b.len()
    &&& b.subrange(offset, offset + m.len()) == m
}

/// `text.get(start..end)` exists.
pub open spec fn slice_exists(b: Seq<u8>, start: int, end: int) -> bool {
    0 <= start <= end <= b.len() && is_char_boundary(b, start) && is_char_boundary(b, end)
}

/// Compares `bytes[start..start + m.len()]` with `m`.
pub fn bytes_match_at(bytes: &[u8], start: usize, m: &[u8]) -> (r: bool)
    requires
        start + m@.len() <= bytes@.len(),
    ensures
        r == (bytes@.subrange(start as int, start + m@.len()) == m@),
{
    let n = m.len();
    let blen = bytes.len();
    let mut i: usize = 0;
    while i < n
        invariant
            i <= n,
            n == m@.len(),
            blen == bytes@.len(),
            start + n <= bytes@.len(),
            forall|j: int| 0 <= j < i ==> bytes@[start + j] == m@[j],
        decreases n - i,
    {
        if bytes[start + i] != m[i] {
            assert(bytes@.subrange(start as int, start + m@.len())[i as int] != m@[i as int]);
            return false;
        }
        i += 1;
    }
    assert(bytes@.subrange(start as int, start + m@.len()) =~= m@);
    true
}

/// True when `text.get(start..end)` is `Some(marker)`.
pub fn slice_equals(text: &str, start: usize, end: usize, marker: &str) -> (r: bool)
    ensures
        r == slice_is(encode_utf8(text@), start as int, end as int, encode_utf8(marker@)),
{
    let bytes = text.as_bytes();
    let m = marker.as_bytes();
    if start > end || end > bytes.len() {
        return false;
    }
    if !text.is_char_boundary(start) || !text.is_char_boundary(end) {
        return false;
    }
    if end - start != m.len() {
        return false;
    }
    bytes_match_at(bytes, start, m)
}

/// True when `text.get(offset..)` starts with `marker`.
pub fn suffix_has_prefix(text: &str, offset: usize, marker: &str) -> (r: bool)
    ensures
        r == suffix_starts_with(encode_utf8(text@), offset as int, encode_utf8(marker@)),
{
    let bytes = text.as_bytes();
    let m = marker.as_bytes();
    if offset > bytes.len() || !text.is_char_boundary(offset) {
        return false;
    }
    if bytes.len() - offset < m.len() {
        return false;
    }
    bytes_match_at(bytes, offset, m)
}

/// `text.get(start..end)`, copied.
pub fn get_owned(text: &str, start: usize, end: usize) -> (r: Option<String>)
    ensures
        slice_exists(encode_utf8(text@), start as int, end as int) ==> r is Some && r->Some_0@ == chars_between(text@, start as int, end as int)
            && encode_utf8(r->Some_0@) == encode_utf8(text@).subrange(start as int, end as int),
        !slice_exists(encode_utf8(text@), start as int, end as int) ==> r is None,
{
    let len = text.as_bytes().len();
    if start > end || end > len || !text.is_char_boundary(start) || !text.is_char_boundary(end) {
        return None;
    }
    Some(substring(text, start, end).to_owned())
}

/// The number of leading bytes of `b` equal to `x`.
pub open spec fn leading_count(b: Seq<u8>, x: u8) -> nat
    decreases b.len(),
{
    if b.len() == 0 || b[0] != x {
        0
    } else {
        1 + leading_count(b.drop_first(), x)
    }
}

/// `n` copies of the byte `x`.
pub open spec fn repeated(x: u8, n: nat) -> Seq<u8> {
    Seq::new(n, |i: int| x)
}

/// Leading copies of `x` before something else are counted exactly.
pub proof fn lemma_leading_count_repeated(x: u8, n: nat, rest: Seq<u8>)
    requires
        rest.len() == 0 || rest[0] != x,
    ensures
        leading_count(repeated(x, n) + rest, x) == n,
    decreases n,
{
    if n > 0 {
        assert((repeated(x, n) + rest).drop_first() =~= repeated(x, (n - 1) as nat) + rest);
        lemma_leading_count_repeated(x, (n - 1) as nat, rest);
    } else {
        assert(repeated(x, n) + rest =~= rest);
    }
}

/// Counts the leading bytes of `bytes[start..end]` equal to `x`.
pub fn count_leading(bytes: &[u8], start: usize, end: usize, x: u8) -> (r: usize)
    requires
        start <= end <= bytes@.len(),
    ensures
        r == leading_count(bytes@.subrange(start as int, end as int), x),
        start + r <= end,
{
    let mut i = start;
    while i < end && bytes[i] == x
        invariant
            start <= i <= end <= bytes@.len(),
            leading_count(bytes@.subrange(start as int, end as int), x) == (i - start) + leading_count(
                bytes@.subrange(i as int, end as int),
                x,
            ),
        decreases end - i,
    {
        assert(bytes@.subrange(i as int, end as int).drop_first() =~= bytes@.subrange(i + 1, end as int));
        i += 1;
    }
    i - start
}

/// The byte `x` occurs in no position of `b`.
pub open spec fn lacks(b: Seq<u8>, x: u8) -> bool {
    forall|i: int| 0 <= i < b.len() ==> b[i] != x
}

/// The position of the first `x` in `bytes[start..end]`, if any.
pub fn find_byte(bytes: &[u8], start: usize, end: usize, x: u8) -> (r: Option<usize>)
    requires
        start <= end <= bytes@.len(),
    ensures
        match r {
            Some(i) => start <= i < end && bytes@[i as int] == x && lacks(bytes@.subrange(start as int, i as int), x),
            None => lacks(bytes@.subrange(start as int, end as int), x),
        },
{
    let mut i = start;
    while i < end
        invariant
            start <= i <= end <= bytes@.len(),
            lacks(bytes@.subrange(start as int, i as int), x),
        decreases end - i,
    {
        if bytes[i] == x {
            return Some(i);
        }
        assert(lacks(bytes@.subrange(start as int, i + 1), x)) by {
            assert forall|j: int| 0 <= j < i + 1 - start implies #[trigger] bytes@.subrange(start as int, i + 1)[j] != x by {
                if j < i - start {
                    assert(bytes@.subrange(start as int, i as int)[j] == bytes@.subrange(start as int, i + 1)[j]);
                }
            }
        }
        i += 1;
    }
    None
}

/// The position of the last `x` in `bytes[start..end]`, if any.
pub fn rfind_byte(bytes: &[u8], start: usize, end: usize, x: u8) -> (r: Option<usize>)
    requires
        start <= end <= bytes@.len(),
    ensures
        match r {
            Some(i) => start <= i < end && bytes@[i as int] == x && lacks(bytes@.subrange(i + 1, end as int), x),
            None => lacks(bytes@.subrange(start as int, end as int), x),
        },
{
    let mut i = end;
    while i > start
        invariant
            start <= i <= end <= bytes@.len(),
            lacks(bytes@.subrange(i as int, end as int), x),
        decreases i,
    {
        if bytes[i - 1] == x {
            return Some(i - 1);
        }
        assert(lacks(bytes@.subrange(i - 1, end as int), x)) by {
            assert forall|j: int| 0 <= j < end - (i - 1) implies #[trigger] bytes@.subrange(i - 1, end as int)[j] != x by {
                if j > 0 {
                    assert(bytes@.subrange(i as int, end as int)[j - 1] == bytes@.subrange(i - 1, end as int)[j]);
                }
            }
        }
        i -= 1;
    }
    None
}

} // verus!

verus! {

/// Two strings are equal exactly when their bytes are.
pub fn str_eq(a: &str, b: &str) -> (r: bool)
    ensures
        r == (a@ == b@),
{
    let x = a.as_bytes();
    let y = b.as_bytes();
    if x.len() != y.len() {
        return false;
    }
    let r = bytes_match_at(x, 0, y);
    proof {
        assert(x@.subrange(0, y@.len() as int) =~= x@);
        encode_utf8_decode_utf8(a@);
        encode_utf8_decode_utf8(b@);
    }
    r
}

/// Joins three strings.
pub fn concat3(a: &str, b: &str, c: &str) -> (r: String)
    ensures
        r@ == a@ + b@ + c@,
{
    let mut s = a.to_owned();
    s.append(b);
    s.append(c);
    s
}

/// The first position at or after `i` where `m` occurs in `b`.
pub open spec fn first_match_from(b: Seq<u8>, m: Seq<u8>, i: int) -> Option<int>
    decreases b.len() + 1 - i,
{
    if i < 0 || i + m.len() > b.len() {
        None
    } else if b.subrange(i, i + m.len()) == m {
        Some(i)
    } else {
        first_match_from(b, m, i + 1)
    }
}

/// A match found from `i` on lies within `b` at or after `i`, and holds `m`.
pub proof fn lemma_first_match_found(b: Seq<u8>, m: Seq<u8>, i: int)
    requires
        first_match_from(b, m, i) is Some,
    ensures
        ({
            let k = first_match_from(b, m, i)->Some_0;
            &&& i <= k
            &&& k + m.len() <= b.len()
            &&& b.subrange(k, k + m.len()) == m
        }),
    decreases b.len() + 1 - i,
{
    if !(i < 0 || i + m.len() > b.len()) && b.subrange(i, i + m.len()) != m {
        lemma_first_match_found(b, m, i + 1);
    }
}

/// The first position in `bytes[start..end]`, relative to `start`, where `m` occurs.
pub fn find_bytes(bytes: &[u8], start: usize, end: usize, m: &[u8]) -> (r: Option<usize>)
    requires
        start <= end <= bytes@.len(),
        m@.len() > 0,
    ensures
        r matches Some(i) ==> first_match_from(bytes@.subrange(start as int, end as int), m@, 0) == Some(i as int),
        r is None ==> first_match_from(bytes@.subrange(start as int, end as int), m@, 0) is None,
        r matches Some(i) ==> i + m@.len() <= end - start,
{
    let ghost sub = bytes@.subrange(start as int, end as int);
    let mlen = m.len();
    let mut i: usize = 0;
    while end - start - i >= mlen
        invariant
            mlen > 0,
            start <= end <= bytes@.len(),
            sub == bytes@.subrange(start as int, end as int),
            mlen == m@.len(),
            i <= end - start,
            first_match_from(sub, m@, 0) == first_match_from(sub, m@, i as int),
        decreases end - start - i,
    {
        let hit = bytes_match_at(bytes, start + i, m);
        assert(sub.subrange(i as int, i + mlen) =~= bytes@.subrange(start + i, start + i + mlen));
        if hit {
            return Some(i);
        }
        i = i + 1;
    }
    None
}

} // verus!
