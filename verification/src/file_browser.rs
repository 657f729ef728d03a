//! Names that the file browser shows for folders, and which files it lists.
use vstd::prelude::*;
use vstd::utf8::*;
use crate::external::folds_to;
use vstd::string::*;

verus! {

/// What `std::path::Path::file_name` gives for the path `path`: its final component,
/// if there is one and it is not `..`. Which characters separate components is fixed by
/// the platform the library is built for.
pub uninterp spec fn path_file_name(path: Seq<char>) -> Option<Seq<char>>;

/// What `std::path::Path::extension` gives for the path `path`: the part of its file
/// name after the last `.`, if the name has one that does not start it (components
/// separated as on the platform the library is built for).
pub uninterp spec fn path_extension(path: Seq<char>) -> Option<Seq<char>>;

/// `Path::file_name` on the path spelled by `path`. Its result is named by
/// `path_file_name`; the name of a path given as UTF-8 text is UTF-8 too.
#[verifier::external_body]
fn file_name_of(path: &str) -> (r: Option<String>)
    ensures
        match path_file_name(path@) {
            Some(n) => r is Some && r->Some_0@ == n,
            None => r is None,
        },
{
    match std::path::Path::new(path).file_name() {
        Some(name) => name.to_str().map(str::to_owned),
        None => None,
    }
}

/// `Path::extension` on the path spelled by `path`. Its result is named by
/// `path_extension`; the extension of a path given as UTF-8 text is UTF-8 too.
#[verifier::external_body]
fn extension_of(path: &str) -> (r: Option<String>)
    ensures
        match path_extension(path@) {
            Some(e) => r is Some && r->Some_0@ == e,
            None => r is None,
        },
{
    match std::path::Path::new(path).extension() {
        Some(extension) => extension.to_str().map(str::to_owned),
        None => None,
    }
}

/// The label of a folder: its final path component, or the whole path when it has none.
pub fn folder_label(path: &str) -> (r: String)
    ensures
        r@ == match path_file_name(path@) {
            Some(n) => n,
            None => path@,
        },
{
    match file_name_of(path) {
        Some(name) => name,
        None => path.to_owned(),
    }
}

/// A Markdown file has the extension `md`, in any letter case.
pub open spec fn markdown_path(path: Seq<char>) -> bool {
    match path_extension(path) {
        Some(e) => folds_to(encode_utf8(e), seq![109u8, 100u8]),
        None => false,
    }
}

pub fn is_markdown_file(path: &str) -> (r: bool)
    ensures
        r == markdown_path(path@),
{
    match extension_of(path) {
        Some(extension) => {
            let b = extension.as_str().as_bytes();
            b.len() == 2 && (b[0] == 109u8 || b[0] == 77u8) && (b[1] == 100u8 || b[1] == 68u8)
        },
        None => false,
    }
}

/// What `str::to_lowercase` gives for `s`.
pub uninterp spec fn lowercase(s: Seq<char>) -> Seq<char>;

/// `str::to_lowercase`: the lowercase of `s`, named by `lowercase`.
#[verifier::external_body]
fn to_lowercase(s: &str) -> (r: String)
    ensures
        r@ == lowercase(s@),
{
    s.to_lowercase()
}

/// The order of byte strings: lexicographic by byte value, a prefix first; -1, 0 or 1.
pub open spec fn lex_order(a: Seq<u8>, b: Seq<u8>) -> int
    decreases a.len(),
{
    if a.len() == 0 {
        if b.len() == 0 {
            0
        } else {
            -1
        }
    } else if b.len() == 0 {
        1
    } else if a[0] < b[0] {
        -1
    } else if a[0] > b[0] {
        1
    } else {
        lex_order(a.drop_first(), b.drop_first())
    }
}

/// The order of file labels: by their lowercase text, then by the text itself.
pub open spec fn label_order(a: Seq<char>, b: Seq<char>) -> int {
    let by_lowercase = lex_order(encode_utf8(lowercase(a)), encode_utf8(lowercase(b)));
    if by_lowercase != 0 {
        by_lowercase
    } else {
        lex_order(encode_utf8(a), encode_utf8(b))
    }
}

proof fn lemma_lex_order(a: Seq<u8>, b: Seq<u8>, c: Seq<u8>)
    ensures
        lex_order(a, b) == -lex_order(b, a),
        lex_order(a, b) == 0 <==> a == b,
        -1 <= lex_order(a, b) <= 1,
        lex_order(a, b) <= 0 && lex_order(b, c) <= 0 ==> lex_order(a, c) <= 0,
        lex_order(a, b) < 0 && lex_order(b, c) <= 0 ==> lex_order(a, c) < 0,
        lex_order(a, b) <= 0 && lex_order(b, c) < 0 ==> lex_order(a, c) < 0,
    decreases a.len(),
{
    if a.len() > 0 && b.len() > 0 && c.len() > 0 {
        lemma_lex_order(a.drop_first(), b.drop_first(), c.drop_first());
    } else if a.len() > 0 && b.len() > 0 {
        lemma_lex_order(a.drop_first(), b.drop_first(), Seq::<u8>::empty());
    }
    if a.len() > 0 && b.len() > 0 && a[0] == b[0] && a.drop_first() == b.drop_first() {
        assert(a =~= seq![a[0]] + a.drop_first());
        assert(b =~= seq![b[0]] + b.drop_first());
    }
    if a.len() == 0 && b.len() == 0 {
        assert(a =~= b);
    }
}

proof fn lemma_label_order(a: Seq<char>, b: Seq<char>, c: Seq<char>)
    ensures
        label_order(a, b) == -label_order(b, a),
        label_order(a, b) == 0 ==> a == b,
        label_order(a, b) <= 0 && label_order(b, c) <= 0 ==> label_order(a, c) <= 0,
        label_order(a, b) < 0 && label_order(b, c) <= 0 ==> label_order(a, c) < 0,
        label_order(a, b) <= 0 && label_order(b, c) < 0 ==> label_order(a, c) < 0,
{
    let (la, lb, lc) = (encode_utf8(lowercase(a)), encode_utf8(lowercase(b)), encode_utf8(lowercase(c)));
    lemma_lex_order(la, lb, lc);
    lemma_lex_order(lb, lc, la);
    lemma_lex_order(la, lc, lb);
    lemma_lex_order(encode_utf8(a), encode_utf8(b), encode_utf8(c));
    lemma_lex_order(encode_utf8(b), encode_utf8(c), encode_utf8(a));
    lemma_lex_order(encode_utf8(a), encode_utf8(c), encode_utf8(b));
    if label_order(a, b) == 0 {
        assert(encode_utf8(a) == encode_utf8(b));
        encode_utf8_decode_utf8(a);
        encode_utf8_decode_utf8(b);
    }
}

fn lex_order_of(a: &[u8], b: &[u8]) -> (r: i8)
    ensures
        r == lex_order(a@, b@),
{
    let mut i: usize = 0;
    proof {
        assert(a@.skip(0) =~= a@);
        assert(b@.skip(0) =~= b@);
    }
    while i < a.len() && i < b.len() && a[i] == b[i]
        invariant
            i <= a@.len(),
            i <= b@.len(),
            lex_order(a@, b@) == lex_order(a@.skip(i as int), b@.skip(i as int)),
        decreases a@.len() - i,
    {
        proof {
            assert(a@.skip(i as int).drop_first() =~= a@.skip(i + 1));
            assert(b@.skip(i as int).drop_first() =~= b@.skip(i + 1));
        }
        i += 1;
    }
    if i == a.len() {
        if i == b.len() {
            0
        } else {
            -1
        }
    } else if i == b.len() {
        1
    } else if a[i] < b[i] {
        -1
    } else {
        1
    }
}

/// The views of a list of labels.
pub open spec fn label_views(labels: Seq<String>) -> Seq<Seq<char>> {
    labels.map_values(|l: String| l@)
}

/// `order` lists each index below `n` once.
pub open spec fn is_permutation(order: Seq<usize>, n: nat) -> bool {
    &&& order.len() == n
    &&& forall|i: int| 0 <= i < order.len() ==> order[i] < n
    &&& forall|i: int, j: int| 0 <= i < j < order.len() ==> order[i] != order[j]
}

/// `order` lists labels from first to last, equal labels in their original order.
pub open spec fn sorted_by_label(labels: Seq<Seq<char>>, order: Seq<usize>) -> bool {
    forall|i: int, j: int|
        #![trigger order[i], order[j]]
        0 <= i < j < order.len() ==> {
            let o = label_order(labels[order[i] as int], labels[order[j] as int]);
            o < 0 || (o == 0 && order[i] < order[j])
        }
}

/// The order in which the file browser lists files with these labels: by lowercase
/// label, then by label, keeping equal labels in the order given.
pub fn label_order_indices(labels: &Vec<String>) -> (order: Vec<usize>)
    ensures
        is_permutation(order@, labels@.len()),
        sorted_by_label(label_views(labels@), order@),
{
    let ghost views = label_views(labels@);
    let n = labels.len();
    let mut lowers: Vec<String> = Vec::new();
    let mut k: usize = 0;
    while k < n
        invariant
            n == labels@.len(),
            k <= n,
            lowers@.len() == k,
            forall|i: int| 0 <= i < k ==> (#[trigger] lowers@[i])@ == lowercase(labels@[i]@),
        decreases n - k,
    {
        lowers.push(to_lowercase(labels[k].as_str()));
        k += 1;
    }
    let mut order: Vec<usize> = Vec::new();
    let mut k: usize = 0;
    while k < n
        invariant
            n == labels@.len() == lowers@.len(),
            views == label_views(labels@),
            forall|i: int| 0 <= i < n ==> (#[trigger] lowers@[i])@ == lowercase(labels@[i]@),
            k <= n,
            is_permutation(order@, k as nat),
            sorted_by_label(views, order@),
        decreases n - k,
    {
        let mut p: usize = 0;
        while p < order.len() && !label_after(labels, &lowers, order[p], k)
            invariant
                n == labels@.len() == lowers@.len(),
                views == label_views(labels@),
                forall|i: int| 0 <= i < n ==> (#[trigger] lowers@[i])@ == lowercase(labels@[i]@),
                k < n,
                is_permutation(order@, k as nat),
                p <= order@.len(),
                forall|q: int| 0 <= q < p ==> label_order(views[order@[q] as int], views[k as int]) <= 0,
            decreases order@.len() - p,
        {
            p += 1;
        }
        proof {
            let old_order = order@;
            assert forall|q: int| p <= q < old_order.len() implies label_order(views[k as int], views[old_order[q] as int]) < 0 by {
                lemma_label_order(views[k as int], views[old_order[p as int] as int], views[old_order[q] as int]);
                lemma_label_order(views[old_order[p as int] as int], views[k as int], views[old_order[q] as int]);
                lemma_label_order(views[old_order[p as int] as int], views[old_order[q] as int], views[k as int]);
            }
            assert forall|q: int| 0 <= q < p implies label_order(views[old_order[q] as int], views[k as int]) <= 0 && old_order[q] < k by {
            }
        }
        let ghost old_order = order@;
        order.insert(p, k);
        proof {
            assert(order@ == old_order.insert(p as int, k));
            assert forall|i: int, j: int| #![trigger order@[i], order@[j]] 0 <= i < j < order@.len() implies {
                let o = label_order(views[order@[i] as int], views[order@[j] as int]);
                o < 0 || (o == 0 && order@[i] < order@[j])
            } by {
                if j < p {
                    assert(order@[i] == old_order[i] && order@[j] == old_order[j]);
                } else if j == p {
                    assert(order@[i] == old_order[i]);
                } else if i < p {
                    assert(order@[i] == old_order[i] && order@[j] == old_order[j - 1]);
                } else if i == p {
                    assert(order@[j] == old_order[j - 1]);
                } else {
                    assert(order@[i] == old_order[i - 1] && order@[j] == old_order[j - 1]);
                }
            }
            assert forall|i: int, j: int| #![trigger order@[i], order@[j]] 0 <= i < j < order@.len() implies order@[i] != order@[j] by {
                if j < p {
                    assert(order@[i] == old_order[i] && order@[j] == old_order[j]);
                } else if j == p {
                    assert(order@[i] == old_order[i]);
                } else if i < p {
                    assert(order@[i] == old_order[i] && order@[j] == old_order[j - 1]);
                } else if i == p {
                    assert(order@[j] == old_order[j - 1]);
                } else {
                    assert(order@[i] == old_order[i - 1] && order@[j] == old_order[j - 1]);
                }
            }
        }
        k += 1;
    }
    order
}

/// Label `i` comes after label `k`.
fn label_after(labels: &Vec<String>, lowers: &Vec<String>, i: usize, k: usize) -> (r: bool)
    requires
        i < labels@.len(),
        k < labels@.len(),
        lowers@.len() == labels@.len(),
        forall|j: int| 0 <= j < labels@.len() ==> (#[trigger] lowers@[j])@ == lowercase(labels@[j]@),
    ensures
        r == (label_order(labels@[i as int]@, labels@[k as int]@) > 0),
{
    let by_lowercase = lex_order_of(lowers[i].as_str().as_bytes(), lowers[k].as_str().as_bytes());
    if by_lowercase != 0 {
        return by_lowercase > 0;
    }
    lex_order_of(labels[i].as_str().as_bytes(), labels[k].as_str().as_bytes()) > 0
}

} // verus!
