//! Grapheme-cluster and word boundaries of a document, from UAX #29 segmentation.
use vstd::prelude::*;
use vstd::utf8::*;
use unicode_segmentation::UnicodeSegmentation;
use crate::utf8::{lemma_encode_concat, lemma_prefix_boundary, lemma_char_step};
use crate::text::{TextRange, EditError, range_error};
use crate::document::Document;

verus! {

broadcast use vstd::utf8::group_utf8_lib;

/// The extended grapheme clusters of `text`, in order, as
/// `UnicodeSegmentation::graphemes(text, true)` yields them.
pub uninterp spec fn grapheme_clusters(text: Seq<char>) -> Seq<Seq<char>>;

/// The words of `text` with their byte offsets, as
/// `UnicodeSegmentation::unicode_word_indices` yields them.
pub uninterp spec fn unicode_words(text: Seq<char>) -> Seq<(int, Seq<char>)>;

/// The concatenation of a sequence of pieces.
pub open spec fn concat_all(pieces: Seq<Seq<char>>) -> Seq<char>
    decreases pieces.len(),
{
    if pieces.len() == 0 {
        Seq::empty()
    } else {
        concat_all(pieces.drop_last()) + pieces.last()
    }
}

/// The views of a list of strings.
pub open spec fn string_views(v: Seq<String>) -> Seq<Seq<char>> {
    v.map_values(|p: String| p@)
}

/// The views of a list of offsets and words.
pub open spec fn word_views(v: Seq<(usize, String)>) -> Seq<(int, Seq<char>)> {
    v.map_values(|w: (usize, String)| (w.0 as int, w.1@))
}

/// `UnicodeSegmentation::graphemes(text, true)`, collected. The clusters are the
/// consecutive, non-empty slices of `text` that the segmentation produces, so they
/// concatenate back to `text`.
#[verifier::external_body]
fn graphemes_of(text: &str) -> (pieces: Vec<String>)
    ensures
        string_views(pieces@) == grapheme_clusters(text@),
        concat_all(string_views(pieces@)) == text@,
        forall|i: int| 0 <= i < pieces@.len() ==> (#[trigger] pieces@[i])@.len() > 0,
{
    text.graphemes(true).map(|g: &str| g.to_owned()).collect()
}

/// `UnicodeSegmentation::unicode_word_indices(text)`, collected: the word-bound
/// slices of `text` that hold an alphanumeric character, with their byte offsets. Each
/// slice starts and ends on a character boundary, matches the bytes of `text` at its
/// offset, and lies after the previous one.
#[verifier::external_body]
fn word_indices_of(text: &str) -> (words: Vec<(usize, String)>)
    ensures
        word_views(words@) == unicode_words(text@),
        forall|i: int|
            #![trigger words@[i]]
            0 <= i < words@.len() ==> {
                let start = words@[i].0 as int;
                let end = start + encode_utf8(words@[i].1@).len();
                &&& end <= encode_utf8(text@).len()
                &&& encode_utf8(text@).subrange(start, end) == encode_utf8(words@[i].1@)
                &&& is_char_boundary(encode_utf8(text@), start)
                &&& is_char_boundary(encode_utf8(text@), end)
                &&& words@[i].1@.len() > 0
            },
        forall|i: int, j: int|
            #![trigger words@[i], words@[j]]
            0 <= i < j < words@.len() ==> words@[i].0 + encode_utf8(words@[i].1@).len()
                <= words@[j].0,
{
    text.unicode_word_indices().map(|(offset, word): (usize, &str)| (offset, word.to_owned())).collect()
}

/// The byte offsets of the grapheme boundaries of `text`: 0, then the end of each
/// cluster.
pub open spec fn grapheme_bounds(text: Seq<char>) -> Seq<usize> {
    Seq::new(
        (grapheme_clusters(text).len() + 1) as nat,
        |i: int| encode_utf8(concat_all(grapheme_clusters(text).take(i))).len() as usize,
    )
}

/// Boundaries that fit the bytes of a text: they start at 0, end at the text's length,
/// increase strictly, and each falls on a character boundary.
pub open spec fn bounds_fit(bytes: Seq<u8>, b: Seq<usize>) -> bool {
    &&& b.len() >= 1
    &&& b[0] == 0
    &&& b.last() == bytes.len()
    &&& forall|i: int, j: int| 0 <= i < j < b.len() ==> b[i] < b[j]
    &&& forall|i: int| 0 <= i < b.len() ==> b[i] <= bytes.len() && is_char_boundary(bytes, #[trigger] b[i] as int)
}

/// The byte ranges of the words of `text`.
pub open spec fn word_spans(text: Seq<char>) -> Seq<(usize, usize)> {
    unicode_words(text).map_values(
        |w: (int, Seq<char>)| (w.0 as usize, (w.0 + encode_utf8(w.1).len()) as usize),
    )
}

/// The last bound before `offset`.
pub open spec fn last_below(bounds: Seq<usize>, offset: int) -> Option<usize>
    decreases bounds.len(),
{
    if bounds.len() == 0 {
        None
    } else if bounds.last() < offset {
        Some(bounds.last())
    } else {
        last_below(bounds.drop_last(), offset)
    }
}

/// The first bound after `offset`.
pub open spec fn first_above(bounds: Seq<usize>, offset: int) -> Option<usize>
    decreases bounds.len(),
{
    if bounds.len() == 0 {
        None
    } else if bounds[0] > offset {
        Some(bounds[0])
    } else {
        first_above(bounds.drop_first(), offset)
    }
}

/// The bound closest to `offset` among the last one at or before it and the first one
/// at or after it, preferring the earlier one on a tie.
pub open spec fn nearest_bound(bounds: Seq<usize>, offset: int) -> Option<usize> {
    match (last_below(bounds, offset + 1), first_above(bounds, offset - 1)) {
        (Some(p), Some(q)) => if offset - p <= q - offset {
            Some(p)
        } else {
            Some(q)
        },
        (Some(p), None) => Some(p),
        (None, Some(q)) => Some(q),
        (None, None) => None,
    }
}

/// The start of the last word that starts before `offset`.
pub open spec fn last_word_start_below(spans: Seq<(usize, usize)>, offset: int) -> Option<usize>
    decreases spans.len(),
{
    if spans.len() == 0 {
        None
    } else if spans.last().0 < offset {
        Some(spans.last().0)
    } else {
        last_word_start_below(spans.drop_last(), offset)
    }
}

/// The end of the first word that ends after `offset`.
pub open spec fn first_word_end_above(spans: Seq<(usize, usize)>, offset: int) -> Option<usize>
    decreases spans.len(),
{
    if spans.len() == 0 {
        None
    } else if spans[0].1 > offset {
        Some(spans[0].1)
    } else {
        first_word_end_above(spans.drop_first(), offset)
    }
}

/// The first word whose range holds `offset`, ends included.
pub open spec fn first_word_holding(spans: Seq<(usize, usize)>, offset: int) -> Option<TextRange>
    decreases spans.len(),
{
    if spans.len() == 0 {
        None
    } else if spans[0].0 <= offset <= spans[0].1 {
        Some(TextRange { start: spans[0].0, end: spans[0].1 })
    } else {
        first_word_holding(spans.drop_first(), offset)
    }
}

proof fn lemma_concat_split(pieces: Seq<Seq<char>>, i: int)
    requires
        0 <= i <= pieces.len(),
    ensures
        concat_all(pieces) == concat_all(pieces.take(i)) + concat_all(pieces.skip(i)),
    decreases pieces.len(),
{
    if i == pieces.len() {
        assert(pieces.take(i) =~= pieces);
        assert(pieces.skip(i) =~= Seq::<Seq<char>>::empty());
        assert(concat_all(pieces) + Seq::<char>::empty() =~= concat_all(pieces));
    } else {
        let dl = pieces.drop_last();
        lemma_concat_split(dl, i);
        assert(dl.take(i) =~= pieces.take(i));
        assert(pieces.skip(i).drop_last() =~= dl.skip(i));
        assert(pieces.skip(i).last() == pieces.last());
        assert(concat_all(pieces.skip(i)) == concat_all(dl.skip(i)) + pieces.last());
        assert(concat_all(pieces) =~= concat_all(pieces.take(i)) + concat_all(pieces.skip(i)));
    }
}

/// The grapheme boundaries of `text`.
fn grapheme_bounds_of(text: &str) -> (bounds: Vec<usize>)
    ensures
        bounds@ == grapheme_bounds(text@),
        bounds_fit(encode_utf8(text@), bounds@),
{
    let pieces = graphemes_of(text);
    let ghost views = string_views(pieces@);
    let n = pieces.len();
    let total = text.as_bytes().len();
    let mut bounds: Vec<usize> = Vec::new();
    let mut acc: usize = 0;
    bounds.push(0);
    proof {
        assert(views.take(0) =~= Seq::<Seq<char>>::empty());
        assert forall|k: int| 0 <= k < views.len() implies (#[trigger] views[k]).len() > 0 by {
            assert(views[k] == pieces@[k]@);
        }
    }
    let mut i: usize = 0;
    while i < n
        invariant
            i <= n,
            n == views.len(),
            views == string_views(pieces@),
            views == grapheme_clusters(text@),
            concat_all(views) == text@,
            total == encode_utf8(text@).len(),
            acc == encode_utf8(concat_all(views.take(i as int))).len(),
            bounds@.len() == i + 1,
            forall|k: int| 0 <= k <= i ==> bounds@[k] == encode_utf8(concat_all(views.take(k))).len(),
            forall|k: int| 0 <= k < views.len() ==> (#[trigger] views[k]).len() > 0,
            bounds@[0] == 0,
            forall|j: int, k: int| 0 <= j < k <= i ==> bounds@[j] < bounds@[k],
            forall|k: int|
                0 <= k <= i ==> bounds@[k] <= total && is_char_boundary(encode_utf8(text@), #[trigger] bounds@[k] as int),
        decreases n - i,
    {
        let w = pieces[i].as_str().as_bytes().len();
        proof {
            lemma_char_step(views[i as int], 0);
            assert(views[i as int].skip(0) =~= views[i as int]);
            assert(views[i as int].take(0) =~= Seq::<char>::empty());
            lemma_prefix_boundary(concat_all(views.take(i + 1)), concat_all(views.skip(i + 1)));
            assert(pieces@[i as int]@ == views[i as int]);
            assert(w > 0);
            let t1 = views.take(i + 1);
            assert(t1.drop_last() =~= views.take(i as int));
            assert(t1.last() == pieces@[i as int]@);
            lemma_encode_concat(concat_all(views.take(i as int)), pieces@[i as int]@);
            lemma_concat_split(views, i + 1);
            lemma_encode_concat(concat_all(views.take(i + 1)), concat_all(views.skip(i + 1)));
        }
        let ghost old_bounds = bounds@;
        acc = acc + w;
        bounds.push(acc);
        proof {
            assert forall|j: int, k: int| 0 <= j < k <= i + 1 implies bounds@[j] < bounds@[k] by {
                assert(bounds@[j] == old_bounds[j]);
                if k <= i {
                    assert(bounds@[k] == old_bounds[k]);
                } else if j < i {
                    assert(old_bounds[j] < old_bounds[i as int]);
                }
            }
        }
        i += 1;
    }
    assert(bounds@ =~= grapheme_bounds(text@));
    assert(views.take(n as int) =~= views);
    bounds
}

/// The byte ranges of the words of `text`.
fn word_spans_of(text: &str) -> (spans: Vec<(usize, usize)>)
    ensures
        spans@ == word_spans(text@),
{
    let words = word_indices_of(text);
    let n = words.len();
    let mut spans: Vec<(usize, usize)> = Vec::new();
    let mut i: usize = 0;
    while i < n
        invariant
            i <= n,
            n == words@.len(),
            word_views(words@) == unicode_words(text@),
            forall|j: int|
                #![trigger words@[j]]
                0 <= j < words@.len() ==> words@[j].0 + encode_utf8(words@[j].1@).len()
                    <= encode_utf8(text@).len(),
            spans@ =~= word_spans(text@).take(i as int),
        decreases n - i,
    {
        let start = words[i].0;
        let w = words[i].1.as_str().as_bytes().len();
        assert(words@[i as int].0 + encode_utf8(words@[i as int].1@).len() <= encode_utf8(text@).len());
        let _ = text.as_bytes().len();
        spans.push((start, start + w));
        assert(word_views(words@)[i as int] == (words@[i as int].0 as int, words@[i as int].1@));
        assert(spans@ =~= word_spans(text@).take(i + 1));
        i += 1;
    }
    assert(spans@ =~= word_spans(text@));
    spans
}

fn find_last_below(bounds: &Vec<usize>, offset: usize) -> (r: Option<usize>)
    ensures
        r == last_below(bounds@, offset as int),
{
    let mut k = bounds.len();
    assert(bounds@.take(k as int) =~= bounds@);
    while k > 0 && bounds[k - 1] >= offset
        invariant
            k <= bounds@.len(),
            last_below(bounds@, offset as int) == last_below(bounds@.take(k as int), offset as int),
        decreases k,
    {
        assert(bounds@.take(k as int).drop_last() =~= bounds@.take(k - 1));
        k -= 1;
    }
    if k == 0 {
        assert(bounds@.take(0) =~= Seq::<usize>::empty());
        None
    } else {
        Some(bounds[k - 1])
    }
}

fn find_last_not_above(bounds: &Vec<usize>, offset: usize) -> (r: Option<usize>)
    ensures
        r == last_below(bounds@, offset + 1),
{
    let mut k = bounds.len();
    assert(bounds@.take(k as int) =~= bounds@);
    while k > 0 && bounds[k - 1] > offset
        invariant
            k <= bounds@.len(),
            last_below(bounds@, offset + 1) == last_below(bounds@.take(k as int), offset + 1),
        decreases k,
    {
        assert(bounds@.take(k as int).drop_last() =~= bounds@.take(k - 1));
        k -= 1;
    }
    if k == 0 {
        assert(bounds@.take(0) =~= Seq::<usize>::empty());
        None
    } else {
        Some(bounds[k - 1])
    }
}

fn find_first_not_below(bounds: &Vec<usize>, offset: usize) -> (r: Option<usize>)
    ensures
        r == first_above(bounds@, offset - 1),
{
    let n = bounds.len();
    let mut k: usize = 0;
    assert(bounds@.skip(0) =~= bounds@);
    while k < n && bounds[k] < offset
        invariant
            k <= n,
            n == bounds@.len(),
            first_above(bounds@, offset - 1) == first_above(bounds@.skip(k as int), offset - 1),
        decreases n - k,
    {
        assert(bounds@.skip(k as int).drop_first() =~= bounds@.skip(k + 1));
        k += 1;
    }
    if k == n {
        assert(bounds@.skip(k as int) =~= Seq::<usize>::empty());
        None
    } else {
        Some(bounds[k])
    }
}

/// What `last_below` finds lies before the offset; what `first_above` finds lies after.
proof fn lemma_found_bounds(bounds: Seq<usize>, offset: int)
    ensures
        last_below(bounds, offset) matches Some(v) ==> v < offset,
        first_above(bounds, offset) matches Some(v) ==> v > offset,
    decreases bounds.len(),
{
    if bounds.len() > 0 {
        lemma_found_bounds(bounds.drop_last(), offset);
        lemma_found_bounds(bounds.drop_first(), offset);
    }
}

/// In strictly increasing bounds that fit `bytes`, `first_above` finds nothing exactly
/// when no bound lies past `x`, and what it finds lies past `x`, within the bytes and on
/// a character boundary.
proof fn lemma_first_above_fit(bytes: Seq<u8>, b: Seq<usize>, x: int)
    requires
        forall|i: int, j: int| 0 <= i < j < b.len() ==> b[i] < b[j],
        forall|i: int| 0 <= i < b.len() ==> b[i] <= bytes.len() && is_char_boundary(bytes, #[trigger] b[i] as int),
    ensures
        first_above(b, x) is None <==> (b.len() == 0 || b.last() <= x),
        first_above(b, x) matches Some(v) ==> x < v <= bytes.len() && is_char_boundary(bytes, v as int),
    decreases b.len(),
{
    if b.len() > 0 {
        assert(b[0] <= bytes.len() && is_char_boundary(bytes, b[0] as int));
        if b.len() > 1 {
            assert(b[0] < b[b.len() - 1]);
        }
        let t = b.drop_first();
        assert forall|i: int| 0 <= i < t.len() implies t[i] <= bytes.len() && is_char_boundary(bytes, #[trigger] t[i] as int) by {
            assert(t[i] == b[i + 1]);
        }
        lemma_first_above_fit(bytes, t, x);
    }
}

/// In strictly increasing bounds that fit `bytes`, `last_below` finds nothing exactly
/// when no bound lies before `x`, and what it finds lies before `x` on a character
/// boundary.
proof fn lemma_last_below_fit(bytes: Seq<u8>, b: Seq<usize>, x: int)
    requires
        forall|i: int, j: int| 0 <= i < j < b.len() ==> b[i] < b[j],
        forall|i: int| 0 <= i < b.len() ==> b[i] <= bytes.len() && is_char_boundary(bytes, #[trigger] b[i] as int),
    ensures
        last_below(b, x) is None <==> (b.len() == 0 || b[0] >= x),
        last_below(b, x) matches Some(v) ==> v < x && v <= bytes.len() && is_char_boundary(bytes, v as int),
    decreases b.len(),
{
    if b.len() > 0 {
        assert(b.last() <= bytes.len() && is_char_boundary(bytes, b.last() as int));
        if b.len() > 1 {
            assert(b[0] < b[b.len() - 1]);
        }
        let t = b.drop_last();
        assert forall|i: int| 0 <= i < t.len() implies t[i] <= bytes.len() && is_char_boundary(bytes, #[trigger] t[i] as int) by {
            assert(t[i] == b[i]);
        }
        lemma_last_below_fit(bytes, t, x);
    }
}

fn find_first_above(bounds: &Vec<usize>, offset: usize) -> (r: Option<usize>)
    ensures
        r == first_above(bounds@, offset as int),
{
    let n = bounds.len();
    let mut k: usize = 0;
    assert(bounds@.skip(0) =~= bounds@);
    while k < n && bounds[k] <= offset
        invariant
            k <= n,
            n == bounds@.len(),
            first_above(bounds@, offset as int) == first_above(bounds@.skip(k as int), offset as int),
        decreases n - k,
    {
        assert(bounds@.skip(k as int).drop_first() =~= bounds@.skip(k + 1));
        k += 1;
    }
    if k == n {
        assert(bounds@.skip(k as int) =~= Seq::<usize>::empty());
        None
    } else {
        Some(bounds[k])
    }
}

impl Document {
    /// The grapheme boundary closest to `offset`; `offset` must lie within the text.
    pub fn nearest_grapheme_offset(&self, offset: usize) -> (r: Result<usize, EditError>)
        ensures
            offset > self.bytes().len() ==> r == Err::<usize, EditError>(EditError::InvalidRange),
            offset <= self.bytes().len() ==> nearest_bound(grapheme_bounds(self@.current.text), offset as int) is Some
                && r == Ok::<usize, EditError>(nearest_bound(grapheme_bounds(self@.current.text), offset as int)->Some_0),
            offset <= self.bytes().len() ==> bounds_fit(self.bytes(), grapheme_bounds(self@.current.text))
                && r->Ok_0 <= self.bytes().len() && is_char_boundary(self.bytes(), r->Ok_0 as int),
    {
        let text = self.text();
        if offset > text.as_bytes().len() {
            return Err(EditError::InvalidRange);
        }
        let bounds = grapheme_bounds_of(text);
        proof {
            assert(grapheme_clusters(text@).take(0) =~= Seq::<Seq<char>>::empty());
            assert(bounds@[0] == 0);
            lemma_last_below_some(bounds@, 0, offset + 1);
            lemma_found_bounds(bounds@, offset + 1);
            lemma_found_bounds(bounds@, offset - 1);
            lemma_last_below_fit(encode_utf8(text@), bounds@, offset + 1);
            lemma_first_above_fit(encode_utf8(text@), bounds@, offset - 1);
        }
        let before = find_last_not_above(&bounds, offset);
        let after = find_first_not_below(&bounds, offset);
        let before = match before {
            Some(p) => p,
            None => {
                return Err(EditError::InvalidRange);
            },
        };
        match after {
            Some(q) => {
                if offset - before <= q - offset {
                    Ok(before)
                } else {
                    Ok(q)
                }
            },
            None => Ok(before),
        }
    }

    /// The last grapheme boundary before `offset`, which must be a character boundary.
    pub fn previous_grapheme_offset(&self, offset: usize) -> (r: Result<Option<usize>, EditError>)
        ensures
            match range_error(self.bytes(), TextRange::caret_spec(offset)) {
                Some(e) => r == Err::<Option<usize>, EditError>(e),
                None => {
                    &&& r == Ok::<Option<usize>, EditError>(last_below(grapheme_bounds(self@.current.text), offset as int))
                    &&& bounds_fit(self.bytes(), grapheme_bounds(self@.current.text))
                    &&& (r == Ok::<Option<usize>, EditError>(None) <==> offset == 0)
                    &&& r matches Ok(Some(p)) ==> p < offset && is_char_boundary(self.bytes(), p as int)
                },
            },
    {
        crate::text::validate_range_in(self.text(), TextRange::caret(offset))?;
        let bounds = grapheme_bounds_of(self.text());
        proof {
            lemma_last_below_fit(self.bytes(), bounds@, offset as int);
        }
        Ok(find_last_below(&bounds, offset))
    }

    /// The first grapheme boundary after `offset`, which must be a character boundary.
    pub fn next_grapheme_offset(&self, offset: usize) -> (r: Result<Option<usize>, EditError>)
        ensures
            match range_error(self.bytes(), TextRange::caret_spec(offset)) {
                Some(e) => r == Err::<Option<usize>, EditError>(e),
                None => {
                    &&& r == Ok::<Option<usize>, EditError>(first_above(grapheme_bounds(self@.current.text), offset as int))
                    &&& bounds_fit(self.bytes(), grapheme_bounds(self@.current.text))
                    &&& (r == Ok::<Option<usize>, EditError>(None) <==> offset == self.bytes().len())
                    &&& r matches Ok(Some(q)) ==> offset < q <= self.bytes().len() && is_char_boundary(self.bytes(), q as int)
                },
            },
    {
        crate::text::validate_range_in(self.text(), TextRange::caret(offset))?;
        let bounds = grapheme_bounds_of(self.text());
        proof {
            lemma_first_above_fit(self.bytes(), bounds@, offset as int);
        }
        Ok(find_first_above(&bounds, offset))
    }

    /// The start of the last word that starts before `offset`.
    pub fn previous_word_offset(&self, offset: usize) -> (r: Result<Option<usize>, EditError>)
        ensures
            match range_error(self.bytes(), TextRange::caret_spec(offset)) {
                Some(e) => r == Err::<Option<usize>, EditError>(e),
                None => r == Ok::<Option<usize>, EditError>(last_word_start_below(word_spans(self@.current.text), offset as int)),
            },
    {
        crate::text::validate_range_in(self.text(), TextRange::caret(offset))?;
        let spans = word_spans_of(self.text());
        let mut k = spans.len();
        assert(spans@.take(k as int) =~= spans@);
        while k > 0 && spans[k - 1].0 >= offset
            invariant
                k <= spans@.len(),
                last_word_start_below(spans@, offset as int) == last_word_start_below(spans@.take(k as int), offset as int),
            decreases k,
        {
            assert(spans@.take(k as int).drop_last() =~= spans@.take(k - 1));
            k -= 1;
        }
        if k == 0 {
            assert(spans@.take(0) =~= Seq::<(usize, usize)>::empty());
            Ok(None)
        } else {
            Ok(Some(spans[k - 1].0))
        }
    }

    /// The end of the first word that ends after `offset`.
    pub fn next_word_offset(&self, offset: usize) -> (r: Result<Option<usize>, EditError>)
        ensures
            match range_error(self.bytes(), TextRange::caret_spec(offset)) {
                Some(e) => r == Err::<Option<usize>, EditError>(e),
                None => r == Ok::<Option<usize>, EditError>(first_word_end_above(word_spans(self@.current.text), offset as int)),
            },
    {
        crate::text::validate_range_in(self.text(), TextRange::caret(offset))?;
        let spans = word_spans_of(self.text());
        let n = spans.len();
        let mut k: usize = 0;
        assert(spans@.skip(0) =~= spans@);
        while k < n && spans[k].1 <= offset
            invariant
                k <= n,
                n == spans@.len(),
                first_word_end_above(spans@, offset as int) == first_word_end_above(spans@.skip(k as int), offset as int),
            decreases n - k,
        {
            assert(spans@.skip(k as int).drop_first() =~= spans@.skip(k + 1));
            k += 1;
        }
        if k == n {
            assert(spans@.skip(k as int) =~= Seq::<(usize, usize)>::empty());
            Ok(None)
        } else {
            Ok(Some(spans[k].1))
        }
    }

    /// The range of the first word that holds `offset`, its ends included.
    pub fn word_range_at_offset(&self, offset: usize) -> (r: Result<Option<TextRange>, EditError>)
        ensures
            match range_error(self.bytes(), TextRange::caret_spec(offset)) {
                Some(e) => r == Err::<Option<TextRange>, EditError>(e),
                None => r == Ok::<Option<TextRange>, EditError>(first_word_holding(word_spans(self@.current.text), offset as int)),
            },
    {
        crate::text::validate_range_in(self.text(), TextRange::caret(offset))?;
        let spans = word_spans_of(self.text());
        let n = spans.len();
        let mut k: usize = 0;
        assert(spans@.skip(0) =~= spans@);
        while k < n && !(spans[k].0 <= offset && offset <= spans[k].1)
            invariant
                k <= n,
                n == spans@.len(),
                first_word_holding(spans@, offset as int) == first_word_holding(spans@.skip(k as int), offset as int),
            decreases n - k,
        {
            assert(spans@.skip(k as int).drop_first() =~= spans@.skip(k + 1));
            k += 1;
        }
        if k == n {
            assert(spans@.skip(k as int) =~= Seq::<(usize, usize)>::empty());
            Ok(None)
        } else {
            Ok(Some(TextRange::new(spans[k].0, spans[k].1)))
        }
    }
}

/// A sequence whose first entry lies before `offset` has a last entry before it.
proof fn lemma_last_below_some(bounds: Seq<usize>, first: usize, offset: int)
    requires
        bounds.len() > 0,
        bounds[0] == first,
        first < offset,
    ensures
        last_below(bounds, offset) is Some,
    decreases bounds.len(),
{
    if bounds.len() > 1 && !(bounds.last() < offset) {
        assert(bounds.drop_last()[0] == first);
        lemma_last_below_some(bounds.drop_last(), first, offset);
    }
}

} // verus!
