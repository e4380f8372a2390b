//! Lookups in a subtree: exact, mutable, and nearest key at or below.

use super::keys::{keys_get, keys_len, keys_search};
use super::insert::put;
use super::node::{
    is_slot, lemma_position_unique, lemma_slot_unique, lower_of, strictly_ascending, upper_of,
    Node, MIN_KEYS,
};
use vstd::prelude::*;

verus! {

/// In strictly ascending keys, every absent key has an insertion position.
pub proof fn lemma_slot_exists(keys: Seq<u64>, k: u64)
    requires
        strictly_ascending(keys),
        !keys.contains(k),
    ensures
        is_slot(keys, k, choose|c: int| is_slot(keys, k, c)),
    decreases keys.len(),
{
    if keys.len() == 0 {
        assert(is_slot(keys, k, 0));
    } else {
        let last = keys.last();
        assert(keys[keys.len() - 1] == last);
        assert(last != k);
        if last < k {
            assert(is_slot(keys, k, keys.len() as int));
        } else {
            let front = keys.drop_last();
            assert forall|i: int, j: int| 0 <= i < j < front.len() implies front[i] < front[j] by {
                assert(front[i] == keys[i] && front[j] == keys[j]);
            }
            if front.contains(k) {
                let j = front.index_of(k);
                assert(keys[j] == k);
            }
            lemma_slot_exists(front, k);
            let i = choose|c: int| is_slot(front, k, c);
            assert(is_slot(keys, k, i)) by {
                assert forall|j: int| 0 <= j < i implies keys[j] < k by {
                    assert(front[j] < k);
                }
                assert forall|j: int| i <= j < keys.len() implies k < keys[j] by {
                    if j < front.len() {
                        assert(k < front[j]);
                    }
                }
            }
        }
    }
}

/// `found` is what a search for the nearest key at or below `query` owes
/// for a subtree: nothing if the subtree holds no such key, and else the
/// largest such key with its value.
pub open spec fn is_floor_of<V>(node: &Node<V>, query: u64, found: Option<(u64, &V)>) -> bool {
    match found {
        Some((k, v)) => {
            &&& k <= query
            &&& node.lookup(k) == Some(*v)
            &&& forall|k2: u64| k2 <= query && (#[trigger] node.lookup(k2)).is_some() ==> k2 <= k
        },
        None => forall|k2: u64| k2 <= query ==> (#[trigger] node.lookup(k2)).is_none(),
    }
}

/// Looks `key` up in the subtree of `node`.
pub(crate) fn get_recursive<'a, V>(
    node: &'a Node<V>,
    key: u64,
    Ghost(depth): Ghost<nat>,
    Ghost(lo): Ghost<int>,
    Ghost(hi): Ghost<int>,
) -> (r: Option<&'a V>)
    requires
        node.wf(depth, lo, hi),
    ensures
        match r {
            Some(v) => node.lookup(key) == Some(*v),
            None => node.lookup(key).is_none(),
        },
    decreases depth,
{
    match keys_search(&node.keys, key) {
        // Key found; each key has a corresponding value
        Ok(idx) => {
            proof {
                lemma_position_unique(node.keys(), key, idx as int);
            }
            Some(&node.values[idx])
        },
        // Key not found
        Err(child_idx) => {
            proof {
                lemma_slot_unique(node.keys(), key, child_idx as int);
            }
            // Recurse down to a child node if it exists
            if child_idx < node.children.len() {
                get_recursive(
                    &node.children[child_idx],
                    key,
                    Ghost((depth - 1) as nat),
                    Ghost(node.lower(child_idx as int, lo)),
                    Ghost(node.upper(child_idx as int, hi)),
                )
            } else {
                None
            }
        },
    }
}

/// Searches the subtree of `node` for the largest key at or below `key`.
/// `best` is the nearest key found further up, which lies below every key
/// of this subtree; it is returned when the subtree has nothing to offer.
#[verifier::rlimit(30)]
pub(crate) fn get_nearest_floor_recursive<'a, V>(
    node: &'a Node<V>,
    key: u64,
    best: Option<(u64, &'a V)>,
    Ghost(depth): Ghost<nat>,
    Ghost(lo): Ghost<int>,
    Ghost(hi): Ghost<int>,
) -> (r: Option<(u64, &'a V)>)
    requires
        node.wf(depth, lo, hi),
        match best {
            Some((k, _)) => k <= lo,
            None => true,
        },
    ensures
        is_floor_of(node, key, None) ==> r == best,
        !is_floor_of(node, key, None) ==> is_floor_of(node, key, r),
    decreases depth,
{
    let mut best = best;
    match keys_search(&node.keys, key) {
        // Key found; each key has a corresponding value
        Ok(idx) => {
            proof {
                lemma_position_unique(node.keys(), key, idx as int);
            }
            let value = &node.values[idx];
            assert(node.lookup(key).is_some());
            Some((key, value))
        },
        // Key not found
        Err(idx) => {
            proof {
                lemma_slot_unique(node.keys(), key, idx as int);
            }
            if idx > 0 {
                // A key is present at `idx - 1`, and with it a value
                let candidate = (keys_get(&node.keys, idx - 1), &node.values[idx - 1]);
                assert(lo < node.keys()[idx - 1]);
                match best {
                    None => {
                        best = Some(candidate);
                    },
                    Some((best_key, _)) => {
                        if candidate.0 > best_key {
                            best = Some(candidate);
                        }
                    },
                }
                proof {
                    lemma_position_unique(node.keys(), candidate.0, idx - 1);
                }
            }
            // Recurse down to child node if it exists, otherwise return current best
            if idx < node.children.len() {
                let r = get_nearest_floor_recursive(
                    &node.children[idx],
                    key,
                    best,
                    Ghost((depth - 1) as nat),
                    Ghost(node.lower(idx as int, lo)),
                    Ghost(node.upper(idx as int, hi)),
                );
                proof {
                    lemma_floor_of_inner(node, key, idx as int, r, depth, lo, hi);
                }
                r
            } else {
                proof {
                    lemma_floor_of_leaf(node, key, idx as int, depth, lo, hi);
                }
                best
            }
        },
    }
}

/// The floor of a leaf in which `query` is absent is the key just below
/// the insertion position.
pub proof fn lemma_floor_of_leaf<V>(
    node: &Node<V>,
    query: u64,
    idx: int,
    depth: nat,
    lo: int,
    hi: int,
)
    requires
        node.wf(depth, lo, hi),
        node.children@.len() == 0,
        is_slot(node.keys(), query, idx),
    ensures
        idx == 0 ==> is_floor_of(node, query, None),
        idx > 0 ==> !is_floor_of(node, query, None) && is_floor_of(
            node,
            query,
            Some((node.keys()[idx - 1], &node.values@[idx - 1])),
        ),
{
    let keys = node.keys();
    assert forall|k2: u64| k2 <= query && (#[trigger] node.lookup(k2)).is_some() implies idx > 0
        && k2 <= keys[idx - 1] by {
        let j = keys.index_of(k2);
        assert(keys[j] == k2);
        if j >= idx {
            assert(query < keys[j]);
        }
        if j < idx - 1 {
            assert(keys[j] < keys[idx - 1]);
        }
    }
    if idx > 0 {
        lemma_position_unique(keys, keys[idx - 1], idx - 1);
        assert(node.lookup(keys[idx - 1]).is_some());
    }
}

/// The floor of an inner node in which `query` is absent is the floor of
/// the child at the insertion position, or else the key just below that
/// position.
#[verifier::rlimit(30)]
pub proof fn lemma_floor_of_inner<V>(
    node: &Node<V>,
    query: u64,
    idx: int,
    r: Option<(u64, &V)>,
    depth: nat,
    lo: int,
    hi: int,
)
    requires
        node.wf(depth, lo, hi),
        depth > 0,
        is_slot(node.keys(), query, idx),
        is_floor_of(&node.children@[idx], query, None) && idx > 0 ==> r == Some(
            (node.keys()[idx - 1], &node.values@[idx - 1]),
        ),
        !is_floor_of(&node.children@[idx], query, None) ==> is_floor_of(
            &node.children@[idx],
            query,
            r,
        ),
    ensures
        is_floor_of(node, query, None) ==> idx == 0 && is_floor_of(
            &node.children@[idx],
            query,
            None,
        ),
        !is_floor_of(node, query, None) ==> is_floor_of(node, query, r),
{
    let keys = node.keys();
    let child = node.children@[idx];
    assert(child.wf((depth - 1) as nat, node.lower(idx, lo), node.upper(idx, hi)));
    // What the node holds for a key at or below the query comes from the
    // keys before the insertion position or from the children up to it.
    assert forall|k2: u64| k2 <= query && (#[trigger] node.lookup(k2)).is_some() implies (idx > 0
        && k2 <= keys[idx - 1]) || child.lookup(k2) == node.lookup(k2) by {
        if keys.contains(k2) {
            let j = keys.index_of(k2);
            assert(keys[j] == k2);
            if j >= idx {
                assert(query < keys[j]);
            }
            if j < idx - 1 {
                assert(keys[j] < keys[idx - 1]);
            }
        } else {
            lemma_slot_exists(keys, k2);
            let c = node.slot(k2);
            if c > idx {
                assert(keys[idx] < k2);
            }
            if c < idx {
                assert(k2 < keys[c]);
                if c < idx - 1 {
                    assert(keys[c] < keys[idx - 1]);
                }
            }
        }
    }
    // What the child holds, the node holds.
    assert forall|k2: u64| (#[trigger] child.lookup(k2)).is_some() implies node.lookup(k2)
        == child.lookup(k2) by {
        lemma_child_lookup(node, idx, k2, depth, lo, hi);
    }
    if idx > 0 {
        lemma_position_unique(keys, keys[idx - 1], idx - 1);
        assert(node.lookup(keys[idx - 1]).is_some());
        assert(keys[idx - 1] < query);
    }
    if !is_floor_of(&child, query, None) {
        let (k, v) = r.unwrap();
        assert(child.lookup(k).is_some());
        lemma_lookup_in_bounds(&child, k, (depth - 1) as nat, node.lower(idx, lo), node.upper(idx, hi));
        assert(node.lookup(k).is_some());
    }
}

/// A key that a subtree holds lies within the subtree's bounds.
pub proof fn lemma_lookup_in_bounds<V>(node: &Node<V>, k: u64, depth: nat, lo: int, hi: int)
    requires
        node.wf(depth, lo, hi),
        node.lookup(k).is_some(),
    ensures
        lo < k < hi,
    decreases depth,
{
    let keys = node.keys();
    if keys.contains(k) {
        let j = keys.index_of(k);
        assert(keys[j] == k);
    } else {
        lemma_slot_exists(keys, k);
        let c = node.slot(k);
        assert(node.children@[c].wf((depth - 1) as nat, node.lower(c, lo), node.upper(c, hi)));
        lemma_lookup_in_bounds(
            &node.children@[c],
            k,
            (depth - 1) as nat,
            node.lower(c, lo),
            node.upper(c, hi),
        );
        if c > 0 {
            assert(lo < keys[c - 1]);
        }
        if c < keys.len() {
            assert(keys[c] < hi);
        }
    }
}

/// What child `c` of a node holds for a key, the node holds for it too.
pub proof fn lemma_child_lookup<V>(node: &Node<V>, c: int, k: u64, depth: nat, lo: int, hi: int)
    requires
        node.wf(depth, lo, hi),
        0 <= c < node.children@.len(),
        node.children@[c].lookup(k).is_some(),
    ensures
        is_slot(node.keys(), k, c),
        node.slot(k) == c,
        !node.keys().contains(k),
        node.lookup(k) == node.children@[c].lookup(k),
{
    let keys = node.keys();
    assert(depth > 0);
    assert(node.children@[c].wf((depth - 1) as nat, node.lower(c, lo), node.upper(c, hi)));
    lemma_lookup_in_bounds(
        &node.children@[c],
        k,
        (depth - 1) as nat,
        node.lower(c, lo),
        node.upper(c, hi),
    );
    assert(is_slot(keys, k, c)) by {
        assert forall|j: int| 0 <= j < c implies keys[j] < k by {
            if j < c - 1 {
                assert(keys[j] < keys[c - 1]);
            }
        }
        assert forall|j: int| c <= j < keys.len() implies k < keys[j] by {
            if j > c {
                assert(keys[c] < keys[j]);
            }
        }
    }
    lemma_slot_unique(keys, k, c);
}

/// A node one of whose values was replaced is a B-tree that holds the new
/// value under the key of the old one, and else what it held before.
pub proof fn lemma_value_replaced<V>(
    before: &Node<V>,
    after: &Node<V>,
    idx: int,
    depth: nat,
    lo: int,
    hi: int,
)
    requires
        before.wf(depth, lo, hi),
        0 <= idx < before.keys().len(),
        after.keys() == before.keys(),
        after.children@ == before.children@,
        after.values@ == before.values@.update(idx, after.values@[idx]),
    ensures
        after.wf(depth, lo, hi),
        forall|k: u64| #[trigger]
            after.lookup(k) == put(before.lookup(k), k, before.keys()[idx], after.values@[idx]),
{
    let keys = before.keys();
    lemma_position_unique(keys, keys[idx], idx);
    assert forall|k: u64| #[trigger]
        after.lookup(k) == put(before.lookup(k), k, keys[idx], after.values@[idx]) by {
        if k != keys[idx] && keys.contains(k) {
            let j = keys.index_of(k);
            assert(keys[j] == k);
        }
    }
}

/// Looks `key` up in the subtree of `node`, for its value to be changed.
#[verifier::rlimit(30)]
pub(crate) fn get_mut_recursive<'a, V>(
    node: &'a mut Node<V>,
    key: u64,
    Ghost(depth): Ghost<nat>,
    Ghost(lo): Ghost<int>,
    Ghost(hi): Ghost<int>,
) -> (r: Option<&'a mut V>)
    requires
        old(node).wf(depth, lo, hi),
    ensures
        final(node).wf(depth, lo, hi),
        final(node).keys().len() == old(node).keys().len(),
        match r {
            Some(v) => {
                &&& old(node).lookup(key) == Some(*v)
                &&& forall|k: u64| #[trigger]
                    final(node).lookup(k) == put(old(node).lookup(k), k, key, *final(v))
            },
            None => {
                &&& old(node).lookup(key).is_none()
                &&& forall|k: u64| #[trigger] final(node).lookup(k) == old(node).lookup(k)
            },
        },
    decreases depth,
{
    let ghost before = *node;
    match keys_search(&node.keys, key) {
        // Key found; each key has a corresponding value
        Ok(idx) => {
            proof {
                lemma_position_unique(before.keys(), key, idx as int);
                // Whatever value is written through the reference, the
                // node stays a B-tree and holds that value under the key.
                assert forall|after: Node<V>|
                    after.keys() == before.keys() && after.children@ == before.children@
                        && after.values@ == before.values@.update(
                        idx as int,
                        after.values@[idx as int],
                    ) implies #[trigger] after.wf(depth, lo, hi) && (forall|k: u64| #[trigger]
                    after.lookup(k) == put(
                        before.lookup(k),
                        k,
                        key,
                        after.values@[idx as int],
                    )) by {
                    lemma_value_replaced(&before, &after, idx as int, depth, lo, hi);
                }
            }
            Some(&mut node.values[idx])
        },
        // Key not found
        Err(idx) => {
            proof {
                lemma_slot_unique(before.keys(), key, idx as int);
            }
            // Recurse down to a child node if it exists
            if idx < node.children.len() {
                proof {
                    assert(before.children@[idx as int].wf(
                        (depth - 1) as nat,
                        before.lower(idx as int, lo),
                        before.upper(idx as int, hi),
                    ));
                    // Whatever the child becomes within these terms, the
                    // node stays a B-tree and holds what the child holds.
                    assert forall|after: Node<V>|
                        after.keys() == before.keys() && after.values@ == before.values@
                            && after.children@ == before.children@.update(
                            idx as int,
                            after.children@[idx as int],
                        ) && after.children@[idx as int].wf(
                            (depth - 1) as nat,
                            before.lower(idx as int, lo),
                            before.upper(idx as int, hi),
                        ) && after.children@[idx as int].keys().len()
                            == before.children@[idx as int].keys().len() && (forall|k: u64|
                            k != key ==> #[trigger] after.children@[idx as int].lookup(k)
                                == before.children@[idx as int].lookup(k))
                            && after.children@[idx as int].lookup(key).is_some()
                            == before.children@[idx as int].lookup(
                            key,
                        ).is_some() implies #[trigger] after.wf(depth, lo, hi) && (forall|k: u64|
                        k != key ==> #[trigger] after.lookup(k) == before.lookup(k))
                        && after.lookup(key) == after.children@[idx as int].lookup(key) by {
                        lemma_child_changed_value(&before, &after, idx as int, key, depth, lo, hi);
                    }
                    assert(before.lookup(key) == before.children@[idx as int].lookup(key));
                }
                let child = &mut node.children[idx];
                get_mut_recursive(
                    child,
                    key,
                    Ghost((depth - 1) as nat),
                    Ghost(before.lower(idx as int, lo)),
                    Ghost(before.upper(idx as int, hi)),
                )
            } else {
                None
            }
        },
    }
}

/// A node one of whose children changed at most the value under `key`,
/// whose insertion position that child is, is a B-tree that holds under
/// `key` what the child holds, and else what it held before.
pub proof fn lemma_child_changed_value<V>(
    before: &Node<V>,
    after: &Node<V>,
    idx: int,
    key: u64,
    depth: nat,
    lo: int,
    hi: int,
)
    requires
        depth > 0,
        before.wf(depth, lo, hi),
        is_slot(before.keys(), key, idx),
        idx < before.children@.len(),
        after.keys() == before.keys(),
        after.values@ == before.values@,
        after.children@ == before.children@.update(idx, after.children@[idx]),
        after.children@[idx].wf((depth - 1) as nat, before.lower(idx, lo), before.upper(idx, hi)),
        after.children@[idx].keys().len() == before.children@[idx].keys().len(),
        forall|k: u64|
            k != key ==> #[trigger] after.children@[idx].lookup(k) == before.children@[idx].lookup(
                k,
            ),
    ensures
        after.wf(depth, lo, hi),
        forall|k: u64| k != key ==> #[trigger] after.lookup(k) == before.lookup(k),
        after.lookup(key) == after.children@[idx].lookup(key),
        before.lookup(key) == before.children@[idx].lookup(key),
{
    let keys = before.keys();
    lemma_slot_unique(keys, key, idx);
    assert forall|i: int| 0 <= i < after.children@.len() implies {
        &&& (#[trigger] after.children@[i]).wf(
            (depth - 1) as nat,
            lower_of(keys, i, lo),
            upper_of(keys, i, hi),
        )
        &&& after.children@[i].keys().len() >= MIN_KEYS
    } by {
        if i != idx {
            assert(after.children@[i] == before.children@[i]);
        }
        assert(before.children@[i].wf(
            (depth - 1) as nat,
            lower_of(keys, i, lo),
            upper_of(keys, i, hi),
        ));
    }
    assert forall|k: u64| k != key implies #[trigger] after.lookup(k) == before.lookup(k) by {
        if !keys.contains(k) {
            lemma_slot_exists(keys, k);
            let s = before.slot(k);
            if s != idx {
                assert(after.children@[s] == before.children@[s]);
            } else {
                assert(after.children@[idx].lookup(k) == before.children@[idx].lookup(k));
            }
        }
    }
}

/// Appends the keys of the subtree of `node` to `out`, in ascending order.
/// What `out` holds already lies at or below the subtree's lower bound.
#[verifier::rlimit(30)]
pub(crate) fn collect_keys<V>(
    node: &Node<V>,
    out: &mut Vec<u64>,
    Ghost(depth): Ghost<nat>,
    Ghost(lo): Ghost<int>,
    Ghost(hi): Ghost<int>,
)
    requires
        node.wf(depth, lo, hi),
        strictly_ascending(old(out)@),
        forall|i: int| 0 <= i < old(out)@.len() ==> #[trigger] old(out)@[i] <= lo,
    ensures
        strictly_ascending(final(out)@),
        final(out)@.len() >= old(out)@.len(),
        final(out)@.subrange(0, old(out)@.len() as int) == old(out)@,
        forall|i: int| old(out)@.len() <= i < final(out)@.len() ==> lo < #[trigger] final(out)@[i] < hi,
        forall|k: u64|
            final(out)@.contains(k) <==> (old(out)@.contains(k) || (#[trigger] node.lookup(
                k,
            )).is_some()),
    decreases depth,
{
    let ghost start = out@;
    let n = keys_len(&node.keys);
    let leaf = node.children.len() == 0;
    let mut i: usize = 0;
    proof {
        assert(out@.subrange(0, start.len() as int) =~= start);
        assert forall|k: u64| (#[trigger] node.lookup(k)).is_some() implies lo < k by {
            lemma_lookup_in_bounds(node, k, depth, lo, hi);
        }
    }
    while i < n
        invariant
            n == node.keys().len(),
            i <= n,
            node.wf(depth, lo, hi),
            leaf == (node.children@.len() == 0),
            strictly_ascending(out@),
            out@.len() >= start.len(),
            out@.subrange(0, start.len() as int) == start,
            forall|j: int| 0 <= j < start.len() ==> #[trigger] start[j] <= lo,
            forall|j: int| start.len() <= j < out@.len() ==> lo < #[trigger] out@[j] < hi,
            forall|j: int| 0 <= j < out@.len() ==> #[trigger] out@[j] <= node.lower(i as int, lo),
            forall|k: u64|
                out@.contains(k) <==> (start.contains(k) || ((#[trigger] node.lookup(k)).is_some()
                    && k <= node.lower(i as int, lo))),
        decreases n - i,
    {
        let ghost before_child = out@;
        let ghost child_lo = node.lower(i as int, lo);
        let ghost child_hi = node.upper(i as int, hi);
        if !leaf {
            proof {
                assert(node.children@[i as int].wf((depth - 1) as nat, child_lo, child_hi));
            }
            collect_keys(
                &node.children[i],
                out,
                Ghost((depth - 1) as nat),
                Ghost(child_lo),
                Ghost(child_hi),
            );
        }
        let ghost before_key = out@;
        let key = keys_get(&node.keys, i);
        out.push(key);
        proof {
            if leaf {
                assert(before_key.subrange(0, before_child.len() as int) =~= before_child);
            }
            lemma_collected(node, start, before_child, before_key, out@, i as int, depth, lo, hi);
        }
        i = i + 1;
    }
    if !leaf {
        let ghost before_child = out@;
        proof {
            assert(node.children@[n as int].wf(
                (depth - 1) as nat,
                node.lower(n as int, lo),
                node.upper(n as int, hi),
            ));
        }
        collect_keys(
            &node.children[n],
            out,
            Ghost((depth - 1) as nat),
            Ghost(node.lower(n as int, lo)),
            Ghost(hi),
        );
        proof {
            lemma_collected_last(node, start, before_child, out@, depth, lo, hi);
        }
    } else {
        proof {
            assert(out@.subrange(0, out@.len() as int) =~= out@);
            lemma_collected_last(node, start, out@, out@, depth, lo, hi);
        }
    }
}

/// What child `c` of a node and the keys and children before it hold is
/// what the node holds at or below the lower bound of child `c + 1`.
#[verifier::rlimit(30)]
proof fn lemma_collected<V>(
    node: &Node<V>,
    start: Seq<u64>,
    before_child: Seq<u64>,
    before_key: Seq<u64>,
    after: Seq<u64>,
    c: int,
    depth: nat,
    lo: int,
    hi: int,
)
    requires
        node.wf(depth, lo, hi),
        0 <= c < node.keys().len(),
        strictly_ascending(before_key),
        start.len() <= before_child.len() <= before_key.len(),
        before_child.subrange(0, start.len() as int) == start,
        before_key.subrange(0, before_child.len() as int) == before_child,
        after == before_key.push(node.keys()[c]),
        forall|j: int| 0 <= j < start.len() ==> #[trigger] start[j] <= lo,
        forall|j: int| start.len() <= j < before_child.len() ==> lo < #[trigger] before_child[j] < hi,
        forall|j: int|
            0 <= j < before_child.len() ==> #[trigger] before_child[j] <= node.lower(c, lo),
        forall|j: int|
            before_child.len() <= j < before_key.len() ==> node.lower(c, lo)
                < #[trigger] before_key[j] < node.upper(c, hi),
        forall|k: u64|
            before_child.contains(k) <==> (start.contains(k) || ((#[trigger] node.lookup(
                k,
            )).is_some() && k <= node.lower(c, lo))),
        node.children@.len() == 0 ==> before_key == before_child,
        node.children@.len() > 0 ==> forall|k: u64|
            before_key.contains(k) <==> (before_child.contains(k)
                || (#[trigger] node.children@[c].lookup(k)).is_some()),
    ensures
        strictly_ascending(after),
        after.subrange(0, start.len() as int) == start,
        forall|j: int| start.len() <= j < after.len() ==> lo < #[trigger] after[j] < hi,
        forall|j: int| 0 <= j < after.len() ==> #[trigger] after[j] <= node.lower(c + 1, lo),
        forall|k: u64|
            after.contains(k) <==> (start.contains(k) || ((#[trigger] node.lookup(k)).is_some()
                && k <= node.lower(c + 1, lo))),
{
    let keys = node.keys();
    let key = keys[c];
    assert(lo < key < hi);
    if c > 0 {
        assert(keys[c - 1] < keys[c]);
    }
    assert forall|a: int, b: int| 0 <= a < b < after.len() implies after[a] < after[b] by {
        if b < before_key.len() {
            assert(before_key[a] < before_key[b]);
        } else if a < before_child.len() {
            assert(before_key[a] == before_child[a]) by {
                assert(before_key.subrange(0, before_child.len() as int)[a] == before_child[a]);
            }
            assert(before_child[a] <= node.lower(c, lo));
        }
    }
    assert(after.subrange(0, start.len() as int) =~= start) by {
        assert forall|j: int| 0 <= j < start.len() implies after[j] == start[j] by {
            assert(before_child.subrange(0, start.len() as int)[j] == start[j]);
            assert(before_key.subrange(0, before_child.len() as int)[j] == before_child[j]);
        }
    }
    assert forall|j: int| start.len() <= j < after.len() implies lo < #[trigger] after[j] < hi by {
        if j < before_child.len() {
            assert(before_key.subrange(0, before_child.len() as int)[j] == before_child[j]);
        } else if j < before_key.len() {
            assert(node.lower(c, lo) < before_key[j] < node.upper(c, hi));
        }
    }
    assert forall|j: int| 0 <= j < after.len() implies #[trigger] after[j] <= key by {
        if j < before_child.len() {
            assert(before_key.subrange(0, before_child.len() as int)[j] == before_child[j]);
            assert(before_child[j] <= node.lower(c, lo));
        } else if j < before_key.len() {
            assert(before_key[j] < node.upper(c, hi));
        }
    }
    lemma_position_unique(keys, key, c);
    assert forall|k: u64|
        after.contains(k) <==> (start.contains(k) || ((#[trigger] node.lookup(k)).is_some() && k
            <= key)) by {
        // What was collected before the key
        let collected = before_key.contains(k);
        assert(after.contains(k) <==> (collected || k == key)) by {
            if collected {
                let j = before_key.index_of(k);
                assert(after[j] == k);
            }
            if k == key {
                assert(after[after.len() - 1] == k);
            }
            if after.contains(k) {
                let j = after.index_of(k);
                if j < before_key.len() {
                    assert(before_key[j] == k);
                }
            }
        }
        if start.contains(k) {
            let j = start.index_of(k);
            assert(start[j] <= lo);
            assert(before_child.contains(k));
        }
        if keys.contains(k) {
            let j = keys.index_of(k);
            assert(keys[j] == k);
            if j < c {
                assert(keys[j] <= keys[c - 1]) by {
                    if j < c - 1 {
                        assert(keys[j] < keys[c - 1]);
                    }
                }
            } else if j > c {
                assert(keys[c] < keys[j]);
            }
        } else if node.children@.len() > 0 {
            lemma_slot_exists(keys, k);
            let s = node.slot(k);
            if s == c {
                assert(node.lookup(k) == node.children@[c].lookup(k));
            } else if s < c {
                assert(k < keys[s]);
                assert(keys[s] <= keys[c - 1]) by {
                    if s < c - 1 {
                        assert(keys[s] < keys[c - 1]);
                    }
                }
            } else {
                assert(keys[c] < k);
                if node.children@[c].lookup(k).is_some() {
                    lemma_child_lookup(node, c, k, depth, lo, hi);
                }
            }
        }
        if node.children@.len() > 0 && node.children@[c].lookup(k).is_some() {
            lemma_child_lookup(node, c, k, depth, lo, hi);
            assert(k < keys[c]);
        }
    }
}

/// What the last child of a node and the keys and children before it hold
/// is what the node holds.
#[verifier::rlimit(30)]
proof fn lemma_collected_last<V>(
    node: &Node<V>,
    start: Seq<u64>,
    before_child: Seq<u64>,
    after: Seq<u64>,
    depth: nat,
    lo: int,
    hi: int,
)
    requires
        node.wf(depth, lo, hi),
        strictly_ascending(after),
        start.len() <= before_child.len() <= after.len(),
        before_child.subrange(0, start.len() as int) == start,
        after.subrange(0, before_child.len() as int) == before_child,
        forall|j: int| 0 <= j < start.len() ==> #[trigger] start[j] <= lo,
        forall|j: int| start.len() <= j < before_child.len() ==> lo < #[trigger] before_child[j] < hi,
        forall|j: int|
            before_child.len() <= j < after.len() ==> node.lower(node.keys().len() as int, lo)
                < #[trigger] after[j] < hi,
        forall|k: u64|
            before_child.contains(k) <==> (start.contains(k) || ((#[trigger] node.lookup(
                k,
            )).is_some() && k <= node.lower(node.keys().len() as int, lo))),
        node.children@.len() == 0 ==> after == before_child,
        node.children@.len() > 0 ==> forall|k: u64|
            after.contains(k) <==> (before_child.contains(k)
                || (#[trigger] node.children@[node.keys().len() as int].lookup(k)).is_some()),
    ensures
        after.subrange(0, start.len() as int) == start,
        forall|j: int| start.len() <= j < after.len() ==> lo < #[trigger] after[j] < hi,
        forall|k: u64|
            after.contains(k) <==> (start.contains(k) || (#[trigger] node.lookup(k)).is_some()),
{
    let keys = node.keys();
    let n = keys.len() as int;
    if n > 0 {
        assert(lo < keys[n - 1]);
    }
    assert(after.subrange(0, start.len() as int) =~= start) by {
        assert forall|j: int| 0 <= j < start.len() implies after[j] == start[j] by {
            assert(before_child.subrange(0, start.len() as int)[j] == start[j]);
            assert(after.subrange(0, before_child.len() as int)[j] == before_child[j]);
        }
    }
    assert forall|j: int| start.len() <= j < after.len() implies lo < #[trigger] after[j] < hi by {
        if j < before_child.len() {
            assert(after.subrange(0, before_child.len() as int)[j] == before_child[j]);
        }
    }
    assert forall|k: u64|
        after.contains(k) <==> (start.contains(k) || (#[trigger] node.lookup(k)).is_some()) by {
        if keys.contains(k) {
            let j = keys.index_of(k);
            assert(keys[j] == k);
            if j < n - 1 {
                assert(keys[j] < keys[n - 1]);
            }
        } else if node.children@.len() > 0 {
            lemma_slot_exists(keys, k);
            let s = node.slot(k);
            if s < n {
                assert(k < keys[s]);
                if s < n - 1 {
                    assert(keys[s] < keys[n - 1]);
                }
                if node.children@[n].lookup(k).is_some() {
                    lemma_child_lookup(node, n, k, depth, lo, hi);
                }
            } else {
                assert(node.lookup(k) == node.children@[n].lookup(k));
            }
        }
        if node.children@.len() > 0 && node.children@[n].lookup(k).is_some() {
            lemma_child_lookup(node, n, k, depth, lo, hi);
        }
    }
}

} // verus!
