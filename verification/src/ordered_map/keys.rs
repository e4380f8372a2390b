//! The inline, fixed-capacity key array of a B-tree node.
//!
//! The array is an `ArrayVec<u64, 8>`. Its methods are reached through the
//! functions below, whose contracts are stated over `key_seq` and are not
//! proved here.

use arrayvec::ArrayVec;
use vstd::prelude::*;

verus! {

/// `arrayvec::ArrayVec`: a vector with a fixed capacity that stores its
/// elements inline. Nothing is known of what is inside a value of it but
/// what the functions below state.
#[verifier::external_type_specification]
#[verifier::external_body]
#[verifier::reject_recursive_types(T)]
pub struct ExArrayVec<T, const CAP: usize>(ArrayVec<T, CAP>);

/// The keys held by a key array, in storage order.
pub uninterp spec fn key_seq(keys: ArrayVec<u64, 8>) -> Seq<u64>;

/// Whether no element of `s` is larger than a later one.
pub open spec fn ascending(s: Seq<u64>) -> bool {
    forall|i: int, j: int| 0 <= i < j < s.len() ==> s[i] <= s[j]
}

/// `ArrayVec::new`: a fresh array holds no keys.
#[verifier::external_body]
pub(crate) fn keys_new() -> (keys: ArrayVec<u64, 8>)
    ensures
        key_seq(keys) == Seq::<u64>::empty(),
{
    ArrayVec::new()
}

/// `ArrayVec::len`: the number of keys held, which never exceeds the
/// capacity of 8.
#[verifier::external_body]
pub(crate) fn keys_len(keys: &ArrayVec<u64, 8>) -> (n: usize)
    ensures
        n == key_seq(*keys).len(),
        n <= 8,
{
    keys.len()
}

/// Indexing through `ArrayVec::deref`: the key at position `idx`.
#[verifier::external_body]
pub(crate) fn keys_get(keys: &ArrayVec<u64, 8>, idx: usize) -> (key: u64)
    requires
        idx < key_seq(*keys).len(),
    ensures
        key == key_seq(*keys)[idx as int],
{
    keys[idx]
}

/// Assignment through `ArrayVec::deref_mut`: replaces the key at position
/// `idx` and leaves the others as they are.
#[verifier::external_body]
pub(crate) fn keys_set(keys: &mut ArrayVec<u64, 8>, idx: usize, key: u64)
    requires
        idx < key_seq(*old(keys)).len(),
    ensures
        key_seq(*final(keys)) == key_seq(*old(keys)).update(idx as int, key),
{
    keys[idx] = key;
}

/// `ArrayVec::insert`: places `key` at position `idx` and shifts the later
/// keys up by one. It panics when `idx` is past the end or the array is full.
#[verifier::external_body]
pub(crate) fn keys_insert(keys: &mut ArrayVec<u64, 8>, idx: usize, key: u64)
    requires
        idx <= key_seq(*old(keys)).len(),
        key_seq(*old(keys)).len() < 8,
    ensures
        key_seq(*final(keys)) == key_seq(*old(keys)).insert(idx as int, key),
{
    keys.insert(idx, key)
}

/// `ArrayVec::remove`: takes out the key at position `idx`, shifts the
/// later keys down by one and returns the key. It panics when `idx` is out
/// of bounds.
#[verifier::external_body]
pub(crate) fn keys_remove(keys: &mut ArrayVec<u64, 8>, idx: usize) -> (key: u64)
    requires
        idx < key_seq(*old(keys)).len(),
    ensures
        key == key_seq(*old(keys))[idx as int],
        key_seq(*final(keys)) == key_seq(*old(keys)).remove(idx as int),
{
    keys.remove(idx)
}

/// `ArrayVec::push`: appends `key`. It panics when the array is full.
#[verifier::external_body]
pub(crate) fn keys_push(keys: &mut ArrayVec<u64, 8>, key: u64)
    requires
        key_seq(*old(keys)).len() < 8,
    ensures
        key_seq(*final(keys)) == key_seq(*old(keys)).push(key),
{
    keys.push(key)
}

/// `ArrayVec::pop`: takes out and returns the last key, or returns `None`
/// and changes nothing when the array is empty.
#[verifier::external_body]
pub(crate) fn keys_pop(keys: &mut ArrayVec<u64, 8>) -> (key: Option<u64>)
    ensures
        key_seq(*old(keys)).len() == 0 ==> key.is_none() && key_seq(*final(keys)) == key_seq(
            *old(keys),
        ),
        key_seq(*old(keys)).len() > 0 ==> key == Some(key_seq(*old(keys)).last()) && key_seq(
            *final(keys),
        ) == key_seq(*old(keys)).drop_last(),
{
    keys.pop()
}

/// `<[u64]>::binary_search` on the array's slice. On keys in ascending
/// order it returns `Ok` with the position of `key` if the key is there,
/// and else `Err` with the position at which `key` would have to be
/// inserted to keep the order. On other input the result is unspecified.
#[verifier::external_body]
pub(crate) fn keys_search(keys: &ArrayVec<u64, 8>, key: u64) -> (r: Result<usize, usize>)
    ensures
        ascending(key_seq(*keys)) ==> match r {
            Ok(idx) => idx < key_seq(*keys).len() && key_seq(*keys)[idx as int] == key,
            Err(idx) => {
                &&& idx <= key_seq(*keys).len()
                &&& forall|j: int| 0 <= j < idx ==> key_seq(*keys)[j] < key
                &&& forall|j: int| idx <= j < key_seq(*keys).len() ==> key < key_seq(*keys)[j]
            },
        },
{
    keys.binary_search(&key)
}

} // verus!
