//! Insertion into a subtree, with node splitting.

use super::keys::{
    key_seq, keys_insert, keys_len, keys_new, keys_push, keys_remove, keys_search,
};
use super::node::{
    is_slot, lemma_position_unique, lemma_slot_unique, lookup_in, lower_of, shape_of,
    strictly_ascending, upper_of, Node, MIN_KEYS, ORDER,
};
use super::search::lemma_slot_exists;
use arrayvec::ArrayVec;
use vstd::prelude::*;

verus! {

/// Result of a node split operation.
///
/// A split moves the upper half of a full node into a newly made node. The
/// node that is split becomes the left node and keeps the lower keys, the
/// new node is the right node and has the higher keys. Between them stands
/// the key/value pair that is promoted into the parent.
pub struct SplitInfo<V> {
    pub promoted_key: u64,
    pub promoted_value: V,
    pub new_node: Node<V>,
}

/// What is held for `k` once `value` was put under `key`, given what was
/// held for `k` before.
pub open spec fn put<V>(before: Option<V>, k: u64, key: u64, value: V) -> Option<V> {
    if k == key {
        Some(value)
    } else {
        before
    }
}

/// What a split node holds for `k`: keys below the promoted key are in the
/// left node, keys above it in the right node.
pub open spec fn route<V>(left: &Node<V>, split: &SplitInfo<V>, k: u64) -> Option<V> {
    if k < split.promoted_key {
        left.lookup(k)
    } else if k == split.promoted_key {
        Some(split.promoted_value)
    } else {
        split.new_node.lookup(k)
    }
}

/// Where the insertion position of `k` moves when `key` is inserted at
/// position `idx`.
pub proof fn lemma_slot_after_insert(keys: Seq<u64>, idx: int, key: u64, k: u64, s: int)
    requires
        strictly_ascending(keys),
        is_slot(keys, key, idx),
        is_slot(keys, k, s),
        k != key,
    ensures
        is_slot(
            keys.insert(idx, key),
            k,
            if s < idx || (s == idx && k < key) {
                s
            } else {
                s + 1
            },
        ),
{
    let vk = keys.insert(idx, key);
    let t = if s < idx || (s == idx && k < key) {
        s
    } else {
        s + 1
    };
    assert forall|j: int| 0 <= j < t implies vk[j] < k by {
        if j < idx {
            assert(vk[j] == keys[j]);
        } else if j > idx {
            assert(vk[j] == keys[j - 1]);
        } else {
            assert(vk[j] == key);
            if s > idx {
                assert(keys[idx] < k);
                assert(key < keys[idx]);
            }
        }
    }
    assert forall|j: int| t <= j < vk.len() implies k < vk[j] by {
        if j < idx {
            assert(vk[j] == keys[j]);
        } else if j > idx {
            assert(vk[j] == keys[j - 1]);
        } else {
            assert(vk[j] == key);
            if s < idx {
                assert(k < keys[s]);
                assert(keys[s] < key);
            }
        }
    }
}

/// Inserting an absent key at its insertion position keeps the keys
/// strictly ascending and within bounds, and tells where each key stands
/// afterwards.
#[verifier::rlimit(30)]
pub proof fn lemma_keys_after_insert(keys: Seq<u64>, idx: int, key: u64, lo: int, hi: int)
    requires
        strictly_ascending(keys),
        is_slot(keys, key, idx),
        forall|i: int| 0 <= i < keys.len() ==> lo < #[trigger] keys[i] < hi,
        lo < key < hi,
    ensures
        strictly_ascending(keys.insert(idx, key)),
        forall|i: int|
            0 <= i < keys.len() + 1 ==> lo < #[trigger] keys.insert(idx, key)[i] < hi,
        forall|k: u64| keys.insert(idx, key).contains(k) <==> (k == key || keys.contains(k)),
        keys.insert(idx, key).index_of(key) == idx,
        forall|k: u64|
            keys.contains(k) ==> #[trigger] keys.insert(idx, key).index_of(k) == (if keys.index_of(
                k,
            ) < idx {
                keys.index_of(k)
            } else {
                keys.index_of(k) + 1
            }),
{
    let vk = keys.insert(idx, key);
    assert forall|i: int, j: int| 0 <= i < j < vk.len() implies vk[i] < vk[j] by {
        if i < idx {
            assert(vk[i] == keys[i]);
        } else if i > idx {
            assert(vk[i] == keys[i - 1]);
        }
        if j < idx {
            assert(vk[j] == keys[j]);
        } else if j > idx {
            assert(vk[j] == keys[j - 1]);
        }
    }
    assert forall|i: int| 0 <= i < keys.len() + 1 implies lo < #[trigger] vk[i] < hi by {
        if i < idx {
            assert(vk[i] == keys[i]);
        } else if i > idx {
            assert(vk[i] == keys[i - 1]);
        }
    }
    assert(vk[idx] == key);
    lemma_position_unique(vk, key, idx);
    assert forall|k: u64| vk.contains(k) <==> (k == key || keys.contains(k)) by {
        if vk.contains(k) {
            let j = vk.index_of(k);
            assert(vk[j] == k);
            if j < idx {
                assert(keys[j] == k);
            } else if j > idx {
                assert(keys[j - 1] == k);
            }
        }
        if keys.contains(k) {
            let j = keys.index_of(k);
            assert(keys[j] == k);
            if j < idx {
                assert(vk[j] == k);
            } else {
                assert(vk[j + 1] == k);
            }
        }
    }
    assert forall|k: u64| keys.contains(k) implies #[trigger] vk.index_of(k) == (if keys.index_of(k)
        < idx {
        keys.index_of(k)
    } else {
        keys.index_of(k) + 1
    }) by {
        let j = keys.index_of(k);
        assert(keys[j] == k);
        if j < idx {
            assert(vk[j] == k);
            lemma_position_unique(vk, k, j);
        } else {
            assert(vk[j + 1] == k);
            lemma_position_unique(vk, k, j + 1);
        }
    }
}

/// Putting an absent key into a leaf at its insertion position gives a
/// leaf that holds the key and everything the leaf held before.
pub proof fn lemma_insert_into_leaf<V>(
    keys: Seq<u64>,
    values: Seq<V>,
    idx: int,
    key: u64,
    value: V,
    lo: int,
    hi: int,
)
    requires
        shape_of(keys, values, Seq::<Node<V>>::empty(), 0, lo, hi, -1),
        is_slot(keys, key, idx),
        lo < key < hi,
    ensures
        shape_of(
            keys.insert(idx, key),
            values.insert(idx, value),
            Seq::<Node<V>>::empty(),
            0,
            lo,
            hi,
            -1,
        ),
        forall|k: u64|
            #[trigger] lookup_in(
                keys.insert(idx, key),
                values.insert(idx, value),
                Seq::<Node<V>>::empty(),
                k,
            ) == put(lookup_in(keys, values, Seq::<Node<V>>::empty(), k), k, key, value),
{
    let vk = keys.insert(idx, key);
    let vv = values.insert(idx, value);
    let none = Seq::<Node<V>>::empty();
    lemma_keys_after_insert(keys, idx, key, lo, hi);
    lemma_slot_unique(keys, key, idx);
    assert forall|k: u64| #[trigger]
        lookup_in(vk, vv, none, k) == put(lookup_in(keys, values, none, k), k, key, value) by {
        if k != key && keys.contains(k) {
            let j = keys.index_of(k);
            assert(vk.index_of(k) == if j < idx {
                j
            } else {
                j + 1
            });
        }
    }
}

/// An inner node whose child at the insertion position of `key` was split,
/// with the promoted pair and the new right node put in beside the child,
/// is a B-tree that holds `key` and everything the node held before.
#[verifier::rlimit(30)]
pub proof fn lemma_insert_split_child<V>(
    before: &Node<V>,
    left: &Node<V>,
    split: &SplitInfo<V>,
    idx: int,
    key: u64,
    value: V,
    depth: nat,
    lo: int,
    hi: int,
)
    requires
        depth > 0,
        before.wf(depth, lo, hi),
        is_slot(before.keys(), key, idx),
        lo < key < hi,
        before.lower(idx, lo) < split.promoted_key < before.upper(idx, hi),
        left.wf((depth - 1) as nat, before.lower(idx, lo), split.promoted_key as int),
        split.new_node.wf((depth - 1) as nat, split.promoted_key as int, before.upper(idx, hi)),
        left.keys().len() >= MIN_KEYS,
        split.new_node.keys().len() >= MIN_KEYS,
        forall|k: u64|
            put(before.children@[idx].lookup(k), k, key, value) == #[trigger] route(left, split, k),
    ensures
        is_slot(before.keys(), split.promoted_key, idx),
        shape_of(
            before.keys().insert(idx, split.promoted_key),
            before.values@.insert(idx, split.promoted_value),
            before.children@.update(idx, *left).insert(idx + 1, split.new_node),
            depth,
            lo,
            hi,
            -1,
        ),
        forall|k: u64|
            #[trigger] lookup_in(
                before.keys().insert(idx, split.promoted_key),
                before.values@.insert(idx, split.promoted_value),
                before.children@.update(idx, *left).insert(idx + 1, split.new_node),
                k,
            ) == put(before.lookup(k), k, key, value),
{
    let keys = before.keys();
    let values = before.values@;
    let children = before.children@;
    let pk = split.promoted_key;
    let pv = split.promoted_value;
    let vk = keys.insert(idx, pk);
    let vv = values.insert(idx, pv);
    let vc = children.update(idx, *left).insert(idx + 1, split.new_node);
    assert(is_slot(keys, pk, idx)) by {
        assert forall|j: int| 0 <= j < idx implies keys[j] < pk by {
            if j < idx - 1 {
                assert(keys[j] < keys[idx - 1]);
            }
        }
        assert forall|j: int| idx <= j < keys.len() implies pk < keys[j] by {
            if j > idx {
                assert(keys[idx] < keys[j]);
            }
        }
    }
    lemma_slot_unique(keys, pk, idx);
    lemma_slot_unique(keys, key, idx);
    lemma_keys_after_insert(keys, idx, pk, lo, hi);
    assert(vk[idx] == pk);
    assert forall|i: int| 0 <= i < vc.len() implies {
        &&& (#[trigger] vc[i]).wf((depth - 1) as nat, lower_of(vk, i, lo), upper_of(vk, i, hi))
        &&& vc[i].keys().len() >= MIN_KEYS
    } by {
        if i < idx {
            assert(vc[i] == children[i]);
            assert(children[i].wf((depth - 1) as nat, lower_of(keys, i, lo), upper_of(keys, i, hi)));
            if i > 0 {
                assert(vk[i - 1] == keys[i - 1]);
            }
            assert(vk[i] == keys[i]);
        } else if i == idx {
            assert(vc[i] == *left);
            if i > 0 {
                assert(vk[i - 1] == keys[i - 1]);
            }
        } else if i == idx + 1 {
            assert(vc[i] == split.new_node);
            if i < vk.len() {
                assert(vk[i] == keys[i - 1]);
            }
        } else {
            assert(vc[i] == children[i - 1]);
            assert(children[i - 1].wf(
                (depth - 1) as nat,
                lower_of(keys, i - 1, lo),
                upper_of(keys, i - 1, hi),
            ));
            assert(vk[i - 1] == keys[i - 2]);
            if i < vk.len() {
                assert(vk[i] == keys[i - 1]);
            }
        }
    }
    assert forall|k: u64| #[trigger]
        lookup_in(vk, vv, vc, k) == put(before.lookup(k), k, key, value) by {
        assert(route(left, split, k) == put(children[idx].lookup(k), k, key, value));
        if k == pk {
            if pk != key {
                assert(before.lookup(pk) == children[idx].lookup(pk));
            }
        } else if keys.contains(k) {
            let j = keys.index_of(k);
            assert(keys[j] == k);
            assert(vk.index_of(k) == if j < idx {
                j
            } else {
                j + 1
            });
        } else {
            lemma_slot_exists(keys, k);
            let s = before.slot(k);
            lemma_slot_after_insert(keys, idx, pk, k, s);
            let t = if s < idx || (s == idx && k < pk) {
                s
            } else {
                s + 1
            };
            lemma_slot_unique(vk, k, t);
            if s == idx {
                if k == key {
                } else {
                    assert(before.lookup(k) == children[idx].lookup(k));
                }
            } else if s < idx {
                assert(vc[t] == children[s]);
            } else {
                assert(vc[t] == children[s]);
            }
        }
    }
}

/// An inner node whose child at the insertion position of `key` took the
/// key in without splitting is a B-tree that holds `key` and everything
/// the node held before.
pub proof fn lemma_insert_in_child<V>(
    before: &Node<V>,
    after: &Node<V>,
    idx: int,
    key: u64,
    value: V,
    depth: nat,
    lo: int,
    hi: int,
)
    requires
        depth > 0,
        before.wf(depth, lo, hi),
        is_slot(before.keys(), key, idx),
        after.keys() == before.keys(),
        after.values@ == before.values@,
        after.children@ == before.children@.update(idx, after.children@[idx]),
        after.children@[idx].wf((depth - 1) as nat, before.lower(idx, lo), before.upper(idx, hi)),
        after.children@[idx].keys().len() >= MIN_KEYS,
        forall|k: u64|
            #[trigger] after.children@[idx].lookup(k) == put(
                before.children@[idx].lookup(k),
                k,
                key,
                value,
            ),
    ensures
        after.wf(depth, lo, hi),
        forall|k: u64| #[trigger] after.lookup(k) == put(before.lookup(k), k, key, value),
{
    let keys = before.keys();
    lemma_slot_unique(keys, key, idx);
    assert forall|i: int| 0 <= i < after.children@.len() implies {
        &&& (#[trigger] after.children@[i]).wf(
            (depth - 1) as nat,
            lower_of(keys, i, lo),
            upper_of(keys, i, hi),
        )
        &&& after.children@[i].keys().len() >= MIN_KEYS
    } by {
        if i != idx {
            assert(after.children@[i] == before.children@[i]);
            assert(before.children@[i].wf(
                (depth - 1) as nat,
                lower_of(keys, i, lo),
                upper_of(keys, i, hi),
            ));
        }
    }
    assert forall|k: u64| #[trigger] after.lookup(k) == put(before.lookup(k), k, key, value) by {
        if !keys.contains(k) {
            lemma_slot_exists(keys, k);
            let s = before.slot(k);
            if s != idx {
                assert(after.children@[s] == before.children@[s]);
            } else {
                assert(after.children@[idx].lookup(k) == put(
                    before.children@[idx].lookup(k),
                    k,
                    key,
                    value,
                ));
            }
        }
    }
}

/// The two halves of nine keys with their values and children, which
/// together make up a B-tree, are B-trees themselves, bounded by the middle
/// key, and hold between them and the middle pair what the whole holds.
#[verifier::rlimit(30)]
pub proof fn lemma_split_halves<V>(
    vk: Seq<u64>,
    vv: Seq<V>,
    vc: Seq<Node<V>>,
    left: &Node<V>,
    split: &SplitInfo<V>,
    depth: nat,
    lo: int,
    hi: int,
)
    requires
        vk.len() == ORDER + 1,
        shape_of(vk, vv, vc, depth, lo, hi, -1),
        left.keys() == vk.subrange(0, 4),
        left.values@ == vv.subrange(0, 4),
        split.promoted_key == vk[4],
        split.promoted_value == vv[4],
        split.new_node.keys() == vk.subrange(5, 9),
        split.new_node.values@ == vv.subrange(5, 9),
        depth == 0 ==> left.children@.len() == 0 && split.new_node.children@.len() == 0,
        depth > 0 ==> left.children@ == vc.subrange(0, 5) && split.new_node.children@
            == vc.subrange(5, 10),
    ensures
        lo < split.promoted_key < hi,
        left.wf(depth, lo, split.promoted_key as int),
        split.new_node.wf(depth, split.promoted_key as int, hi),
        forall|k: u64| #[trigger] route(left, split, k) == lookup_in(vk, vv, vc, k),
{
    let pk = split.promoted_key;
    let right = &split.new_node;
    let lk = left.keys();
    let rk = right.keys();
    assert(lo < vk[4] < hi);
    assert forall|i: int, j: int| 0 <= i < j < lk.len() implies lk[i] < lk[j] by {
        assert(lk[i] == vk[i] && lk[j] == vk[j]);
    }
    assert forall|i: int, j: int| 0 <= i < j < rk.len() implies rk[i] < rk[j] by {
        assert(rk[i] == vk[i + 5] && rk[j] == vk[j + 5]);
    }
    assert forall|i: int| 0 <= i < lk.len() implies lo < #[trigger] lk[i] < pk by {
        assert(lk[i] == vk[i]);
        assert(vk[i] < vk[4]);
    }
    assert forall|i: int| 0 <= i < rk.len() implies pk < #[trigger] rk[i] < hi by {
        assert(rk[i] == vk[i + 5]);
        assert(vk[4] < vk[i + 5]);
    }
    if depth > 0 {
        assert forall|i: int| 0 <= i < left.children@.len() implies {
            &&& (#[trigger] left.children@[i]).wf(
                (depth - 1) as nat,
                lower_of(lk, i, lo),
                upper_of(lk, i, pk as int),
            )
            &&& left.children@[i].keys().len() >= MIN_KEYS
        } by {
            assert(left.children@[i] == vc[i]);
            assert(vc[i].wf((depth - 1) as nat, lower_of(vk, i, lo), upper_of(vk, i, hi)));
            if i > 0 {
                assert(lk[i - 1] == vk[i - 1]);
            }
            if i < 4 {
                assert(lk[i] == vk[i]);
            }
        }
        assert forall|i: int| 0 <= i < right.children@.len() implies {
            &&& (#[trigger] right.children@[i]).wf(
                (depth - 1) as nat,
                lower_of(rk, i, pk as int),
                upper_of(rk, i, hi),
            )
            &&& right.children@[i].keys().len() >= MIN_KEYS
        } by {
            assert(right.children@[i] == vc[i + 5]);
            assert(vc[i + 5].wf(
                (depth - 1) as nat,
                lower_of(vk, i + 5, lo),
                upper_of(vk, i + 5, hi),
            ));
            if i > 0 {
                assert(rk[i - 1] == vk[i + 4]);
            }
            if i < 4 {
                assert(rk[i] == vk[i + 5]);
            }
        }
    }
    assert forall|k: u64| #[trigger] route(left, split, k) == lookup_in(vk, vv, vc, k) by {
        if vk.contains(k) {
            let j = vk.index_of(k);
            assert(vk[j] == k);
            if j < 4 {
                assert(lk[j] == k);
                lemma_position_unique(lk, k, j);
                assert(vk[j] < vk[4]);
            } else if j > 4 {
                assert(rk[j - 5] == k);
                lemma_position_unique(rk, k, j - 5);
                assert(vk[4] < vk[j]);
            }
        } else {
            lemma_slot_exists(vk, k);
            let s = choose|i: int| is_slot(vk, k, i);
            if lk.contains(k) {
                let j = lk.index_of(k);
                assert(vk[j] == lk[j]);
            }
            if rk.contains(k) {
                let j = rk.index_of(k);
                assert(vk[j + 5] == rk[j]);
            }
            if k < pk {
                if s > 4 {
                    assert(vk[4] < k);
                }
                assert(is_slot(lk, k, s)) by {
                    assert forall|j: int| 0 <= j < s implies lk[j] < k by {
                        assert(lk[j] == vk[j]);
                    }
                    assert forall|j: int| s <= j < lk.len() implies k < lk[j] by {
                        assert(lk[j] == vk[j]);
                    }
                }
                lemma_slot_unique(lk, k, s);
                if depth > 0 {
                    assert(left.children@[s] == vc[s]);
                }
            } else {
                if s <= 4 {
                    assert(k < vk[4]);
                }
                assert(is_slot(rk, k, s - 5)) by {
                    assert forall|j: int| 0 <= j < s - 5 implies rk[j] < k by {
                        assert(rk[j] == vk[j + 5]);
                    }
                    assert forall|j: int| s - 5 <= j < rk.len() implies k < rk[j] by {
                        assert(rk[j] == vk[j + 5]);
                    }
                }
                lemma_slot_unique(rk, k, s - 5);
                if depth > 0 {
                    assert(right.children@[s - 5] == vc[s]);
                }
            }
        }
    }
}

/// Moves the keys from position `at` on into a new key array.
pub(crate) fn keys_split_off(keys: &mut ArrayVec<u64, 8>, at: usize) -> (tail: ArrayVec<u64, 8>)
    requires
        at <= key_seq(*old(keys)).len(),
    ensures
        key_seq(*final(keys)) == key_seq(*old(keys)).subrange(0, at as int),
        key_seq(tail) == key_seq(*old(keys)).subrange(at as int, key_seq(*old(keys)).len() as int),
{
    let ghost all = key_seq(*keys);
    let mut tail = keys_new();
    // Number of keys that are left to move
    let mut left = keys_len(keys) - at;
    while left > 0
        invariant
            all.len() <= 8,
            key_seq(*keys).len() == at + left,
            key_seq(tail).len() + left + at == all.len(),
            key_seq(tail) == all.subrange(at as int, at + key_seq(tail).len()),
            key_seq(*keys) == all.subrange(0, at as int) + all.subrange(
                at + key_seq(tail).len(),
                all.len() as int,
            ),
        decreases left,
    {
        let ghost moved = key_seq(tail).len();
        let k = keys_remove(keys, at);
        keys_push(&mut tail, k);
        left = left - 1;
        proof {
            assert(k == all[at + moved]);
            assert(key_seq(tail) =~= all.subrange(at as int, at + moved + 1));
            assert(key_seq(*keys) =~= all.subrange(0, at as int) + all.subrange(
                at + moved + 1,
                all.len() as int,
            ));
        }
    }
    proof {
        assert(key_seq(*keys) =~= all.subrange(0, at as int));
        assert(key_seq(tail) =~= all.subrange(at as int, all.len() as int));
    }
    tail
}

/// Puts `child` in at position `idx + 1` among the nine children of a full
/// inner node that is being split. The node keeps the first five of the
/// ten children; the other five are returned, for the new node.
pub(crate) fn split_children<V>(children: &mut Vec<Node<V>>, idx: usize, child: Node<V>) -> (upper:
    Vec<Node<V>>)
    requires
        old(children)@.len() == ORDER + 1,
        idx <= ORDER,
    ensures
        final(children)@ == old(children)@.insert(idx + 1, child).subrange(0, 5),
        upper@ == old(children)@.insert(idx + 1, child).subrange(5, 10),
{
    let mid = ORDER / 2;
    let ghost all = children@.insert(idx + 1, child);
    // The new node has the upper half of the node's children
    let mut upper = children.split_off(mid + 1);
    if idx < mid {
        // The child goes into the lower half, whose last child moves over
        // to the front of the new node
        children.insert(idx + 1, child);
        let moved = children.pop().unwrap();
        upper.insert(0, moved);
    } else {
        upper.insert(idx - mid, child);
    }
    proof {
        assert(children@ =~= all.subrange(0, 5));
        assert(upper@ =~= all.subrange(5, 10));
    }
    upper
}

/// B-tree node split operation.
///
/// This handles the case where a key/value pair is to be inserted into
/// `node` at index `idx`, but the node is full. The pair, and with it the
/// child that comes to stand on its right when an inner node is split, is
/// put in at its place among the node's nine keys and ten children. The
/// node keeps the lower four keys, the new node gets the upper four, and
/// the key in the middle is promoted.
#[verifier::rlimit(30)]
pub(crate) fn split_node<V>(
    node: &mut Node<V>,
    idx: usize,
    key: u64,
    value: V,
    internal_insert_child: Option<Node<V>>,
) -> (split: SplitInfo<V>)
    requires
        old(node).keys().len() == ORDER,
        old(node).values@.len() == ORDER,
        idx <= ORDER,
        match internal_insert_child {
            Some(_) => old(node).children@.len() == ORDER + 1,
            None => old(node).children@.len() == 0,
        },
    ensures
        final(node).keys() == old(node).keys().insert(idx as int, key).subrange(0, 4),
        final(node).values@ == old(node).values@.insert(idx as int, value).subrange(0, 4),
        split.promoted_key == old(node).keys().insert(idx as int, key)[4],
        split.promoted_value == old(node).values@.insert(idx as int, value)[4],
        split.new_node.keys() == old(node).keys().insert(idx as int, key).subrange(5, 9),
        split.new_node.values@ == old(node).values@.insert(idx as int, value).subrange(5, 9),
        match internal_insert_child {
            Some(child) => {
                &&& final(node).children@ == old(node).children@.insert(
                    idx + 1,
                    child,
                ).subrange(0, 5)
                &&& split.new_node.children@ == old(node).children@.insert(
                    idx + 1,
                    child,
                ).subrange(5, 10)
            },
            None => final(node).children@.len() == 0 && split.new_node.children@.len() == 0,
        },
{
    let mid = ORDER / 2;
    let ghost keys = node.keys();
    let ghost values = node.values@;
    // The new node has the upper half of the node's children, with the
    // child that is inserted (in case of an inner node insert)
    let new_node_children: Vec<Node<V>> = match internal_insert_child {
        Some(child) => split_children(&mut node.children, idx, child),
        None => Vec::new(),
    };
    // Remove the upper half of the node's keys and values and put them
    // into the new node
    let mut new_node = Node {
        keys: keys_split_off(&mut node.keys, mid),
        values: node.values.split_off(mid),
        children: new_node_children,
    };
    let ghost vk = keys.insert(idx as int, key);
    let ghost vv = values.insert(idx as int, value);
    // Figure out which node to insert the pair into based on the insertion index
    let (promoted_key, promoted_value) = if idx == mid {
        // The pair goes in the center, so it is the promoted one
        (key, value)
    } else if idx < mid {
        // The pair goes in the lower half; the topmost pair of the node
        // becomes promoted
        keys_insert(&mut node.keys, idx, key);
        node.values.insert(idx, value);
        let last = keys_len(&node.keys) - 1;
        (keys_remove(&mut node.keys, last), node.values.remove(last))
    } else {
        // The pair goes in the upper half; the bottommost pair of the new
        // node becomes promoted
        keys_insert(&mut new_node.keys, idx - mid, key);
        new_node.values.insert(idx - mid, value);
        (keys_remove(&mut new_node.keys, 0), new_node.values.remove(0))
    };
    proof {
        assert(node.keys() =~= vk.subrange(0, 4));
        assert(node.values@ =~= vv.subrange(0, 4));
        assert(new_node.keys() =~= vk.subrange(5, 9));
        assert(new_node.values@ =~= vv.subrange(5, 9));
    }
    SplitInfo { promoted_key, promoted_value, new_node }
}

/// Recursive B-tree insert operation.
///
/// Puts `value` under `key` in the subtree of `node`. When the node is
/// full and has to take a new key in, it is split, and the caller gets the
/// promoted pair and the new right node to put in beside this node.
#[verifier::rlimit(30)]
pub(crate) fn insert_recursive<V>(
    node: &mut Node<V>,
    key: u64,
    value: V,
    Ghost(depth): Ghost<nat>,
    Ghost(lo): Ghost<int>,
    Ghost(hi): Ghost<int>,
) -> (r: Option<SplitInfo<V>>)
    requires
        old(node).wf(depth, lo, hi),
        lo < key < hi,
    ensures
        match r {
            None => {
                &&& final(node).wf(depth, lo, hi)
                &&& final(node).keys().len() >= old(node).keys().len()
                &&& forall|k: u64| #[trigger]
                    final(node).lookup(k) == put(old(node).lookup(k), k, key, value)
            },
            Some(split) => {
                &&& lo < split.promoted_key < hi
                &&& final(node).wf(depth, lo, split.promoted_key as int)
                &&& split.new_node.wf(depth, split.promoted_key as int, hi)
                &&& final(node).keys().len() >= MIN_KEYS
                &&& split.new_node.keys().len() >= MIN_KEYS
                &&& forall|k: u64| #[trigger]
                    route(final(node), &split, k) == put(old(node).lookup(k), k, key, value)
            },
        },
    decreases depth,
{
    let ghost before = *node;
    match keys_search(&node.keys, key) {
        // Key already present in tree, update its value
        Ok(idx) => {
            node.values.set(idx, value);
            proof {
                lemma_position_unique(before.keys(), key, idx as int);
                assert(node.keys() == before.keys());
                assert(node.children@ == before.children@);
                assert(node.wf(depth, lo, hi));
                assert forall|k: u64| #[trigger]
                    node.lookup(k) == put(before.lookup(k), k, key, value) by {
                    if k != key && before.keys().contains(k) {
                        let j = before.keys().index_of(k);
                        assert(before.keys()[j] == k);
                    }
                }
            }
            None
        },
        // Key needs to be inserted
        Err(idx) => {
            proof {
                lemma_slot_unique(before.keys(), key, idx as int);
            }
            if node.is_leaf() {
                proof {
                    assert(before.children@ =~= Seq::<Node<V>>::empty());
                    lemma_insert_into_leaf(
                        before.keys(),
                        before.values@,
                        idx as int,
                        key,
                        value,
                        lo,
                        hi,
                    );
                }
                // Try inserting the key here
                if keys_len(&node.keys) < ORDER {
                    // Node has space, insert key
                    keys_insert(&mut node.keys, idx, key);
                    node.values.insert(idx, value);
                    proof {
                        assert(node.children@ =~= Seq::<Node<V>>::empty());
                        assert(node.keys() == before.keys().insert(idx as int, key));
                        assert(node.values@ == before.values@.insert(idx as int, value));
                        assert(depth == 0);
                        assert(node.wf(depth, lo, hi));
                        assert forall|k: u64| #[trigger]
                            node.lookup(k) == put(before.lookup(k), k, key, value) by {
                            assert(node.lookup(k) == lookup_in(
                                before.keys().insert(idx as int, key),
                                before.values@.insert(idx as int, value),
                                Seq::<Node<V>>::empty(),
                                k,
                            ));
                        }
                    }
                    return None;
                }
                // Node is full, split it
                let split = split_node(node, idx, key, value, None);
                proof {
                    lemma_split_halves(
                        before.keys().insert(idx as int, key),
                        before.values@.insert(idx as int, value),
                        Seq::<Node<V>>::empty(),
                        node,
                        &split,
                        depth,
                        lo,
                        hi,
                    );
                }
                Some(split)
            } else {
                // Recurse down to a child node
                let ghost child_lo = before.lower(idx as int, lo);
                let ghost child_hi = before.upper(idx as int, hi);
                proof {
                    assert(before.children@[idx as int].wf((depth - 1) as nat, child_lo, child_hi));
                    if idx > 0 {
                        assert(before.keys()[idx - 1] < key);
                    }
                    if idx < before.keys().len() {
                        assert(key < before.keys()[idx as int]);
                    }
                }
                let child = &mut node.children[idx];
                let split_info = insert_recursive(
                    child,
                    key,
                    value,
                    Ghost((depth - 1) as nat),
                    Ghost(child_lo),
                    Ghost(child_hi),
                );
                // Check if child was split
                match split_info {
                    Some(info) => {
                        let ghost left = node.children@[idx as int];
                        proof {
                            lemma_insert_split_child(
                                &before,
                                &left,
                                &info,
                                idx as int,
                                key,
                                value,
                                depth,
                                lo,
                                hi,
                            );
                            assert(node.children@ =~= before.children@.update(idx as int, left));
                        }
                        if keys_len(&node.keys) < ORDER {
                            // Node has space, insert promoted key and new child node
                            keys_insert(&mut node.keys, idx, info.promoted_key);
                            node.values.insert(idx, info.promoted_value);
                            node.children.insert(idx + 1, info.new_node);
                            proof {
                                let vk = before.keys().insert(idx as int, info.promoted_key);
                                let vv = before.values@.insert(idx as int, info.promoted_value);
                                let vc = before.children@.update(idx as int, left).insert(
                                    idx + 1,
                                    info.new_node,
                                );
                                assert(node.keys() == vk);
                                assert(node.values@ == vv);
                                assert(node.children@ == vc);
                                assert(node.wf(depth, lo, hi));
                                assert forall|k: u64| #[trigger]
                                    node.lookup(k) == put(before.lookup(k), k, key, value) by {
                                    assert(node.lookup(k) == lookup_in(vk, vv, vc, k));
                                }
                            }
                            None
                        } else {
                            // Current node is full, split this too
                            let split = split_node(
                                node,
                                idx,
                                info.promoted_key,
                                info.promoted_value,
                                Some(info.new_node),
                            );
                            proof {
                                lemma_split_halves(
                                    before.keys().insert(idx as int, info.promoted_key),
                                    before.values@.insert(idx as int, info.promoted_value),
                                    before.children@.update(idx as int, left).insert(
                                        idx + 1,
                                        info.new_node,
                                    ),
                                    node,
                                    &split,
                                    depth,
                                    lo,
                                    hi,
                                );
                            }
                            Some(split)
                        }
                    },
                    None => {
                        proof {
                            lemma_insert_in_child(
                                &before,
                                node,
                                idx as int,
                                key,
                                value,
                                depth,
                                lo,
                                hi,
                            );
                        }
                        None
                    },
                }
            }
        },
    }
}

} // verus!
