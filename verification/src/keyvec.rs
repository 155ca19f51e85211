//! Short keys held in a `SmallVec`, which keeps up to 32 entries inline.

use smallvec::SmallVec;
use vstd::prelude::*;

verus! {

/// A key of a few small numbers, held in a `smallvec::SmallVec<[u8; 32]>`.
/// Nothing is proved of the vector itself: the library reads and makes it
/// through the three functions below, whose contracts say over `key_items`
/// what `SmallVec::from_slice`, `SmallVec::len` and indexing do.
#[verifier::external_body]
pub struct KeyVec {
    items: SmallVec<[u8; 32]>,
}

/// The entries that the vector of a key holds, in order.
pub uninterp spec fn key_items(key: KeyVec) -> Seq<u8>;

/// Calls `SmallVec::from_slice`, which copies the entries of a slice, in order.
#[verifier::external_body]
pub(crate) fn key_from(entries: &Vec<u8>) -> (key: KeyVec)
    ensures
        key_items(key) == entries@,
{
    KeyVec { items: SmallVec::from_slice(entries.as_slice()) }
}

/// Calls `SmallVec::len`, the number of entries.
#[verifier::external_body]
pub(crate) fn key_len(key: &KeyVec) -> (n: usize)
    ensures
        n == key_items(*key).len(),
{
    key.items.len()
}

/// Indexes the `SmallVec`: the entry at place `i`.
#[verifier::external_body]
pub(crate) fn key_at(key: &KeyVec, i: usize) -> (entry: u8)
    requires
        i < key_items(*key).len(),
    ensures
        entry == key_items(*key)[i as int],
{
    key.items[i]
}

} // verus!
