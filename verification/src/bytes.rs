//! Byte-level helpers: substring search with an exact first-occurrence
//! specification, byte-slice equality, and subrange extraction.

use vstd::prelude::*;

verus! {

/// `needle` occurs in `haystack` starting at byte position `i`.
pub open spec fn match_at(haystack: Seq<u8>, needle: Seq<u8>, i: int) -> bool {
    &&& 0 <= i
    &&& i + needle.len() <= haystack.len()
    &&& haystack.subrange(i, i + needle.len()) == needle
}

/// Position of the first occurrence of `needle` in `haystack` at or after
/// position `pos`, or `None` when there is none.
pub open spec fn spec_find(haystack: Seq<u8>, needle: Seq<u8>, pos: int) -> Option<int>
    decreases haystack.len() - pos,
{
    if pos < 0 || pos + needle.len() > haystack.len() {
        None
    } else if needle.len() == 0 || match_at(haystack, needle, pos) {
        Some(pos)
    } else {
        spec_find(haystack, needle, pos + 1)
    }
}

/// `spec_find` returns exactly the first match at or after `pos`.
pub proof fn lemma_find_char(haystack: Seq<u8>, needle: Seq<u8>, pos: int)
    requires
        0 <= pos,
    ensures
        match spec_find(haystack, needle, pos) {
            Some(i) => pos <= i && match_at(haystack, needle, i) && (forall|j: int|
                pos <= j < i ==> !match_at(haystack, needle, j)),
            None => forall|j: int| pos <= j ==> !match_at(haystack, needle, j),
        },
    decreases haystack.len() - pos,
{
    if pos + needle.len() > haystack.len() {
        assert forall|j: int| pos <= j implies !match_at(haystack, needle, j) by {}
    } else if needle.len() == 0 {
        assert(haystack.subrange(pos, pos + needle.len()) =~= needle);
    } else if match_at(haystack, needle, pos) {
    } else {
        lemma_find_char(haystack, needle, pos + 1);
    }
}

/// A match of the suffix starting at `pos` is a match of the whole, shifted.
pub proof fn lemma_match_shift(data: Seq<u8>, needle: Seq<u8>, pos: int, j: int)
    requires
        0 <= pos <= data.len(),
        0 <= j,
    ensures
        match_at(data.subrange(pos, data.len() as int), needle, j) <==> match_at(
            data,
            needle,
            pos + j,
        ),
{
    let tail = data.subrange(pos, data.len() as int);
    if j + needle.len() <= tail.len() {
        assert(tail.subrange(j, j + needle.len()) =~= data.subrange(
            pos + j,
            pos + j + needle.len(),
        ));
    }
}

/// Searching the suffix of `h` that starts at `pos` finds the same first
/// occurrence, shifted by `pos`.
pub proof fn lemma_find_suffix(h: Seq<u8>, n: Seq<u8>, pos: int)
    requires
        0 <= pos <= h.len(),
    ensures
        ({
            let tail = h.subrange(pos, h.len() as int);
            match spec_find(h, n, pos) {
                Some(i) => spec_find(tail, n, 0) == Some(i - pos),
                None => spec_find(tail, n, 0) is None,
            }
        }),
{
    let tail = h.subrange(pos, h.len() as int);
    lemma_find_char(h, n, pos);
    lemma_find_char(tail, n, 0);
    assert forall|j: int| 0 <= j implies (match_at(tail, n, j) <==> match_at(h, n, pos + j)) by {
        lemma_match_shift(h, n, pos, j);
    }
    match spec_find(h, n, pos) {
        Some(i) => {
            match spec_find(tail, n, 0) {
                Some(k) => {
                    if k < i - pos {
                        assert(match_at(h, n, pos + k));
                        assert(false);
                    } else if k > i - pos {
                        assert(match_at(tail, n, i - pos));
                        assert(false);
                    }
                },
                None => {
                    assert(match_at(tail, n, i - pos));
                    assert(false);
                },
            }
        },
        None => {
            match spec_find(tail, n, 0) {
                Some(k) => {
                    assert(match_at(h, n, pos + k));
                    assert(false);
                },
                None => {},
            }
        },
    }
}

/// Relies on memchr::memmem::find: returns the index of the first occurrence
/// of `needle` inside `haystack`, or `None` when `needle` does not occur.
#[verifier::external_body]
fn memmem_find(haystack: &[u8], needle: &[u8]) -> (r: Option<usize>)
    ensures
        match r {
            Some(i) => match_at(haystack@, needle@, i as int) && (forall|j: int|
                0 <= j < i ==> !match_at(haystack@, needle@, j)),
            None => forall|j: int| !match_at(haystack@, needle@, j),
        },
{
    memchr::memmem::find(haystack, needle)
}

/// First occurrence of `needle` in `data` at or after position `pos`.
pub fn find_from(data: &[u8], needle: &[u8], pos: usize) -> (r: Option<usize>)
    requires
        pos <= data@.len(),
    ensures
        r matches Some(i) ==> spec_find(data@, needle@, pos as int) == Some(i as int),
        r is None ==> spec_find(data@, needle@, pos as int) is None,
{
    let tail = vstd::slice::slice_subrange(data, pos, data.len());
    let found = memmem_find(tail, needle);
    proof {
        lemma_find_char(data@, needle@, pos as int);
        assert forall|j: int| 0 <= j implies (match_at(tail@, needle@, j) <==> match_at(
            data@,
            needle@,
            pos + j,
        )) by {
            lemma_match_shift(data@, needle@, pos as int, j);
        }
    }
    match found {
        Some(i) => {
            proof {
                assert(match_at(data@, needle@, pos + i));
                assert forall|j: int| pos <= j < pos + i implies !match_at(
                    data@,
                    needle@,
                    j,
                ) by {
                    assert(!match_at(tail@, needle@, j - pos));
                }
            }
            Some(pos + i)
        },
        None => {
            proof {
                assert forall|j: int| pos <= j implies !match_at(data@, needle@, j) by {
                    assert(!match_at(tail@, needle@, j - pos));
                }
            }
            None
        },
    }
}

/// The bytes of `data` from `from` (inclusive) to `to` (exclusive), owned.
pub fn sub_to_vec(data: &[u8], from: usize, to: usize) -> (r: Vec<u8>)
    requires
        from <= to <= data@.len(),
    ensures
        r@ == data@.subrange(from as int, to as int),
{
    vstd::slice::slice_to_vec(vstd::slice::slice_subrange(data, from, to))
}

/// An owned copy of the bytes of `data`.
pub fn copy_bytes(data: &[u8]) -> (r: Vec<u8>)
    ensures
        r@ == data@,
{
    vstd::slice::slice_to_vec(data)
}

/// Appends `data[from..to]` to `out`.
pub fn append_range(out: &mut Vec<u8>, data: &[u8], from: usize, to: usize)
    requires
        from <= to <= data@.len(),
    ensures
        final(out)@ == old(out)@ + data@.subrange(from as int, to as int),
{
    let mut piece = sub_to_vec(data, from, to);
    out.append(&mut piece);
}

/// Byte-for-byte equality of two byte slices.
pub fn bytes_eq(a: &[u8], b: &[u8]) -> (r: bool)
    ensures
        r <==> a@ == b@,
{
    if a.len() != b.len() {
        return false;
    }
    let mut i: usize = 0;
    while i < a.len()
        invariant
            i <= a@.len(),
            a@.len() == b@.len(),
            forall|j: int| 0 <= j < i ==> a@[j] == b@[j],
        decreases a@.len() - i,
    {
        if a[i] != b[i] {
            return false;
        }
        i = i + 1;
    }
    proof {
        assert(a@ =~= b@);
    }
    true
}

} // verus!
