//! Reading little-endian integers and searching byte strings.

use vstd::prelude::*;
use memmem::{Searcher, TwoWaySearcher};

verus! {

/// `needle` occurs in `haystack` at index `i`.
pub open spec fn occurs_at(haystack: Seq<u8>, needle: Seq<u8>, i: int) -> bool {
    &&& 0 <= i
    &&& i + needle.len() <= haystack.len()
    &&& haystack.subrange(i, i + needle.len()) == needle
}

/// `r` is the index of the first occurrence of `needle` in `haystack`, or
/// `None` when there is none.
pub open spec fn is_first_occurrence(haystack: Seq<u8>, needle: Seq<u8>, r: Option<usize>) -> bool {
    match r {
        Some(i) => {
            &&& occurs_at(haystack, needle, i as int)
            &&& forall|j: int| 0 <= j < i ==> !occurs_at(haystack, needle, j)
        },
        None => forall|j: int| !occurs_at(haystack, needle, j),
    }
}

/// Finds the first occurrence of `needle` in `haystack` with memmem's
/// two-way searcher, which returns the leftmost match.
#[verifier::external_body]
pub(crate) fn find_bytes(haystack: &[u8], needle: &[u8]) -> (r: Option<usize>)
    ensures
        is_first_occurrence(haystack@, needle@, r),
{
    TwoWaySearcher::new(needle).search_in(haystack)
}

/// The little-endian `u32` in the four bytes of `data` at `offset`.
pub open spec fn le_u32_at(data: Seq<u8>, offset: int) -> u32 {
    (data[offset] as int + data[offset + 1] as int * 0x100 + data[offset + 2] as int * 0x10000
        + data[offset + 3] as int * 0x1000000) as u32
}

/// The little-endian `u32` at `offset`, if four bytes are there.
pub open spec fn read_u32_spec(data: Seq<u8>, offset: int) -> Option<u32> {
    if 0 <= offset && offset + 4 <= data.len() {
        Some(le_u32_at(data, offset))
    } else {
        None
    }
}

/// Reads a little-endian `u32` at `offset`, if four bytes are there.
pub fn read_u32(data: &[u8], offset: usize) -> (r: Option<u32>)
    requires
        offset + 4 <= usize::MAX,
    ensures
        r == read_u32_spec(data@, offset as int),
{
    if offset + 4 > data.len() {
        return None;
    }
    let b0 = data[offset] as u32;
    let b1 = data[offset + 1] as u32;
    let b2 = data[offset + 2] as u32;
    let b3 = data[offset + 3] as u32;
    Some(b0 + b1 * 0x100 + b2 * 0x10000 + b3 * 0x1000000)
}

} // verus!
