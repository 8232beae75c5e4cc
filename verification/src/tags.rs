//! The tags of the fields of a structure, where its declaration names
//! only some of them.

use vstd::prelude::*;
use crate::size::{capped, header_len};

verus! {

/// The tag of the field at index `i`: the tag that the declaration names
/// for it; where it names none, one more than the tag of the field before
/// it, and 0 for the first field. Counting goes on from 255 with 0.
pub open spec fn tag_at(named: Seq<Option<u8>>, i: int) -> u8
    decreases i,
{
    if i < 0 || i >= named.len() {
        0
    } else {
        match named[i] {
            Some(tag) => tag,
            None => if i == 0 {
                0
            } else if tag_at(named, i - 1) == 255 {
                0
            } else {
                (tag_at(named, i - 1) + 1) as u8
            },
        }
    }
}

/// The tags of the fields in the order of their declaration, `named`
/// holding for each field the tag that the declaration names, if any.
pub fn assign_tags(named: &[Option<u8>]) -> (tags: Vec<u8>)
    ensures
        tags@.len() == named@.len(),
        forall|i: int| 0 <= i < named@.len() ==> tags@[i] == tag_at(named@, i),
{
    let mut tags: Vec<u8> = Vec::new();
    let mut i: usize = 0;
    while i < named.len()
        invariant
            i <= named@.len(),
            tags@.len() == i,
            forall|j: int| 0 <= j < i ==> tags@[j] == tag_at(named@, j),
        decreases named.len() - i,
    {
        let tag = match named[i] {
            Some(tag) => tag,
            None => if i == 0 {
                0
            } else if tags[i - 1] == 255 {
                0
            } else {
                tags[i - 1] + 1
            },
        };
        tags.push(tag);
        i = i + 1;
    }
    tags
}

/// The length of the headers of the first `n` of `tags`: one byte for a
/// tag below 15, two bytes for any other.
pub open spec fn headers_len(tags: Seq<u8>, n: nat) -> nat
    decreases n,
{
    if n == 0 || n > tags.len() {
        0
    } else {
        headers_len(tags, (n - 1) as nat) + if tags[n - 1] < 0xF {
            1nat
        } else {
            2nat
        }
    }
}

/// The length of the headers of fields with `tags`, capped at the largest
/// `usize`.
pub fn tags_encoded_len(tags: &[u8]) -> (n: usize)
    ensures
        n == capped(headers_len(tags@, tags@.len())),
{
    let mut n: usize = 0;
    let mut i: usize = 0;
    while i < tags.len()
        invariant
            i <= tags@.len(),
            n == capped(headers_len(tags@, i as nat)),
        decreases tags.len() - i,
    {
        n = n.saturating_add(header_len(tags[i]));
        i = i + 1;
    }
    n
}

} // verus!
