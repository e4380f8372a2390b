//! Removal from a subtree, with rebalancing of underflowed nodes.

use super::keys::{
    key_seq, keys_get, keys_insert, keys_len, keys_pop, keys_push, keys_remove, keys_search,
    keys_set,
};
use super::node::{
    is_slot, lemma_position_unique, lemma_slot_unique, lookup_in, lower_of, shape_of,
    strictly_ascending, upper_of, Node, MIN_KEYS, ORDER,
};
use super::search::{lemma_lookup_in_bounds, lemma_slot_exists};
use vstd::prelude::*;

verus! {

/// What a removal from a subtree hands back: the value that was stored
/// under the key, and whether the subtree's top node was left with fewer
/// than `MIN_KEYS` keys.
pub struct RemovalInfo<V> {
    pub value: V,
    pub underflow: bool,
}

/// Whether node `after` has as many keys as node `before`, or one less.
pub open spec fn lost_at_most_one<V>(before: &Node<V>, after: &Node<V>) -> bool {
    after.keys().len() == before.keys().len() || after.keys().len() + 1 == before.keys().len()
}

/// What is held for `k` once `key` was removed, given what was held for
/// `k` before.
pub open spec fn without<V>(before: Option<V>, k: u64, key: u64) -> Option<V> {
    if k == key {
        None
    } else {
        before
    }
}

/// What keys, values and children hold for a key that stands at position
/// `i`, or that is absent and has insertion position `i`.
pub proof fn lemma_lookup_cases<V>(
    keys: Seq<u64>,
    values: Seq<V>,
    children: Seq<Node<V>>,
    k: u64,
    i: int,
)
    requires
        strictly_ascending(keys),
        children.len() == 0 || children.len() == keys.len() + 1,
        (0 <= i < keys.len() && keys[i] == k) || is_slot(keys, k, i),
    ensures
        0 <= i < keys.len() && keys[i] == k ==> lookup_in(keys, values, children, k) == Some(
            values[i],
        ),
        is_slot(keys, k, i) ==> lookup_in(keys, values, children, k) == (if children.len() == 0 {
            None
        } else {
            children[i].lookup(k)
        }),
{
    if 0 <= i < keys.len() && keys[i] == k {
        lemma_position_unique(keys, k, i);
    }
    if is_slot(keys, k, i) {
        lemma_slot_unique(keys, k, i);
    }
}

/// A B-tree within bounds is a B-tree within wider bounds.
pub proof fn lemma_widen<V>(
    node: &Node<V>,
    depth: nat,
    lo: int,
    hi: int,
    wide_lo: int,
    wide_hi: int,
    weak: int,
)
    requires
        node.shape(depth, lo, hi, weak),
        wide_lo <= lo,
        hi <= wide_hi,
    ensures
        node.shape(depth, wide_lo, wide_hi, weak),
    decreases depth,
{
    let keys = node.keys();
    assert forall|i: int| 0 <= i < keys.len() implies wide_lo < #[trigger] keys[i] < wide_hi by {
        assert(lo < keys[i] < hi);
    }
    if depth > 0 {
        assert forall|i: int| 0 <= i < node.children@.len() implies (#[trigger] node.children@[i]).wf(
            (depth - 1) as nat,
            lower_of(keys, i, wide_lo),
            upper_of(keys, i, wide_hi),
        ) by {
            assert(node.children@[i].wf(
                (depth - 1) as nat,
                lower_of(keys, i, lo),
                upper_of(keys, i, hi),
            ));
            lemma_widen(
                &node.children@[i],
                (depth - 1) as nat,
                lower_of(keys, i, lo),
                upper_of(keys, i, hi),
                lower_of(keys, i, wide_lo),
                upper_of(keys, i, wide_hi),
                -1,
            );
        }
    }
}

/// A key outside a subtree's bounds is not in the subtree.
pub proof fn lemma_outside_bounds<V>(node: &Node<V>, k: u64, depth: nat, lo: int, hi: int)
    requires
        node.wf(depth, lo, hi),
        k <= lo || hi <= k,
    ensures
        node.lookup(k).is_none(),
{
    if node.lookup(k).is_some() {
        lemma_lookup_in_bounds(node, k, depth, lo, hi);
    }
}

/// Removing the key at position `idx` of a leaf leaves a leaf that holds
/// everything the leaf held before but that key.
pub proof fn lemma_remove_from_leaf<V>(
    keys: Seq<u64>,
    values: Seq<V>,
    idx: int,
    lo: int,
    hi: int,
)
    requires
        shape_of(keys, values, Seq::<Node<V>>::empty(), 0, lo, hi, -1),
        0 <= idx < keys.len(),
    ensures
        shape_of(keys.remove(idx), values.remove(idx), Seq::<Node<V>>::empty(), 0, lo, hi, -1),
        lookup_in(keys, values, Seq::<Node<V>>::empty(), keys[idx]) == Some(values[idx]),
        forall|k: u64|
            #[trigger] lookup_in(keys.remove(idx), values.remove(idx), Seq::<Node<V>>::empty(), k)
                == without(lookup_in(keys, values, Seq::<Node<V>>::empty(), k), k, keys[idx]),
{
    let rk = keys.remove(idx);
    let rv = values.remove(idx);
    let none = Seq::<Node<V>>::empty();
    assert forall|i: int, j: int| 0 <= i < j < rk.len() implies rk[i] < rk[j] by {
        let a = if i < idx { i } else { i + 1 };
        let b = if j < idx { j } else { j + 1 };
        assert(rk[i] == keys[a] && rk[j] == keys[b]);
    }
    assert forall|i: int| 0 <= i < rk.len() implies lo < #[trigger] rk[i] < hi by {
        let a = if i < idx { i } else { i + 1 };
        assert(rk[i] == keys[a]);
    }
    lemma_position_unique(keys, keys[idx], idx);
    assert forall|k: u64| #[trigger]
        lookup_in(rk, rv, none, k) == without(lookup_in(keys, values, none, k), k, keys[idx]) by {
        if rk.contains(k) {
            let i = rk.index_of(k);
            let a = if i < idx { i } else { i + 1 };
            assert(rk[i] == keys[a]);
            lemma_position_unique(rk, k, i);
            lemma_position_unique(keys, k, a);
            if a < idx {
                assert(keys[a] < keys[idx]);
            } else {
                assert(keys[idx] < keys[a]);
            }
        } else if keys.contains(k) {
            let a = keys.index_of(k);
            assert(keys[a] == k);
            if a < idx {
                assert(rk[a] == k);
            } else if a > idx {
                assert(rk[a - 1] == k);
            }
        }
    }
}

/// An inner node one of whose children changed, while staying within its
/// bounds and holding what it held before but for `key`, is a B-tree
/// that holds what the node held before but for `key`. The changed child
/// may have underflowed.
#[verifier::rlimit(30)]
pub proof fn lemma_remove_in_child<V>(
    before: &Node<V>,
    after: &Node<V>,
    idx: int,
    key: u64,
    depth: nat,
    lo: int,
    hi: int,
)
    requires
        depth > 0,
        before.wf(depth, lo, hi),
        0 <= idx < before.children@.len(),
        after.keys() == before.keys(),
        after.values@ == before.values@,
        after.children@ == before.children@.update(idx, after.children@[idx]),
        after.children@[idx].wf((depth - 1) as nat, before.lower(idx, lo), before.upper(idx, hi)),
        after.children@[idx].keys().len() + 1 >= MIN_KEYS,
        forall|k: u64|
            #[trigger] after.children@[idx].lookup(k) == without(
                before.children@[idx].lookup(k),
                k,
                key,
            ),
        is_slot(before.keys(), key, idx),
    ensures
        after.shape(depth, lo, hi, idx),
        after.children@[idx].keys().len() >= MIN_KEYS ==> after.wf(depth, lo, hi),
        forall|k: u64| #[trigger] after.lookup(k) == without(before.lookup(k), k, key),
{
    let keys = before.keys();
    assert forall|i: int| 0 <= i < after.children@.len() implies {
        &&& (#[trigger] after.children@[i]).wf(
            (depth - 1) as nat,
            lower_of(keys, i, lo),
            upper_of(keys, i, hi),
        )
        &&& after.children@[i].keys().len() + (if i == idx {
            1nat
        } else {
            0nat
        }) >= MIN_KEYS
    } by {
        if i != idx {
            assert(after.children@[i] == before.children@[i]);
            assert(before.children@[i].wf(
                (depth - 1) as nat,
                lower_of(keys, i, lo),
                upper_of(keys, i, hi),
            ));
        }
    }
    assert forall|k: u64| #[trigger] after.lookup(k) == without(before.lookup(k), k, key) by {
        if !keys.contains(k) {
            lemma_slot_exists(keys, k);
            let s = before.slot(k);
            if k == key {
                lemma_slot_unique(keys, key, idx);
            }
            if s != idx {
                assert(after.children@[s] == before.children@[s]);
            } else {
                assert(after.children@[idx].lookup(k) == without(
                    before.children@[idx].lookup(k),
                    k,
                    key,
                ));
            }
        }
    }
}

/// A node in which the last pair of the left sibling of child `c` moved
/// up to separate the two, while the pair that separated them moved down
/// to the front of child `c`, together with the sibling's last child, is
/// a B-tree that holds what the node held before.
#[verifier::rlimit(30)]
pub proof fn lemma_rotate_from_left<V>(
    before: &Node<V>,
    after: &Node<V>,
    c: int,
    depth: nat,
    lo: int,
    hi: int,
)
    requires
        depth > 0,
        before.shape(depth, lo, hi, c),
        0 < c < before.children@.len(),
        before.children@[c - 1].keys().len() > MIN_KEYS,
        before.children@[c].keys().len() < ORDER,
        after.keys() == before.keys().update(c - 1, before.children@[c - 1].keys().last()),
        after.values@ == before.values@.update(c - 1, before.children@[c - 1].values@.last()),
        after.children@ == before.children@.update(c - 1, after.children@[c - 1]).update(
            c,
            after.children@[c],
        ),
        after.children@.len() == before.children@.len(),
        after.children@[c - 1].keys() == before.children@[c - 1].keys().drop_last(),
        after.children@[c - 1].values@ == before.children@[c - 1].values@.drop_last(),
        after.children@[c].keys() == before.children@[c].keys().insert(0, before.keys()[c - 1]),
        after.children@[c].values@ == before.children@[c].values@.insert(
            0,
            before.values@[c - 1],
        ),
        depth == 1 ==> after.children@[c - 1].children@.len() == 0 && after.children@[c].children@.len()
            == 0,
        depth > 1 ==> after.children@[c - 1].children@ == before.children@[c
            - 1].children@.drop_last() && after.children@[c].children@
            == before.children@[c].children@.insert(0, before.children@[c - 1].children@.last()),
    ensures
        after.wf(depth, lo, hi),
        forall|k: u64| #[trigger] after.lookup(k) == before.lookup(k),
{
    let keys = before.keys();
    let values = before.values@;
    let kids = before.children@;
    let s = kids[c - 1];
    let u = kids[c];
    let s2 = after.children@[c - 1];
    let u2 = after.children@[c];
    let sep = keys[c - 1];
    let n = s.keys().len() as int;
    let sk = s.keys()[n - 1];
    let keys2 = after.keys();
    let d1 = (depth - 1) as nat;
    let s_lo = lower_of(keys, c - 1, lo);
    let u_hi = upper_of(keys, c, hi);
    assert(s.wf(d1, s_lo, sep as int));
    assert(u.wf(d1, sep as int, u_hi));
    assert(s_lo < sk < sep);
    // The keys of the node stay ascending and within bounds.
    assert forall|i: int, j: int| 0 <= i < j < keys2.len() implies keys2[i] < keys2[j] by {
        assert(keys[i] < keys[j]);
        if i == c - 1 {
            assert(sep < keys[j]);
        }
        if j == c - 1 {
            assert(keys[i] <= s_lo) by {
                if i < c - 2 {
                    assert(keys[i] < keys[c - 2]);
                }
            }
        }
    }
    assert forall|i: int| 0 <= i < keys2.len() implies lo < #[trigger] keys2[i] < hi by {
        assert(lo < keys[i] < hi);
        if c - 1 > 0 {
            assert(lo < keys[c - 2]);
        }
    }
    // The left sibling without its last pair.
    assert(s2.wf(d1, s_lo, sk as int)) by {
        let k2 = s2.keys();
        assert forall|i: int, j: int| 0 <= i < j < k2.len() implies k2[i] < k2[j] by {
            assert(k2[i] == s.keys()[i] && k2[j] == s.keys()[j]);
        }
        assert forall|i: int| 0 <= i < k2.len() implies s_lo < #[trigger] k2[i] < sk by {
            assert(k2[i] == s.keys()[i]);
            assert(s.keys()[i] < s.keys()[n - 1]);
        }
        if d1 > 0 {
            assert forall|i: int| 0 <= i < s2.children@.len() implies {
                &&& (#[trigger] s2.children@[i]).wf(
                    (d1 - 1) as nat,
                    lower_of(k2, i, s_lo),
                    upper_of(k2, i, sk as int),
                )
                &&& s2.children@[i].keys().len() >= MIN_KEYS
            } by {
                assert(s2.children@[i] == s.children@[i]);
                assert(s.children@[i].wf(
                    (d1 - 1) as nat,
                    lower_of(s.keys(), i, s_lo),
                    upper_of(s.keys(), i, sep as int),
                ));
                if i > 0 {
                    assert(k2[i - 1] == s.keys()[i - 1]);
                }
                if i < k2.len() {
                    assert(k2[i] == s.keys()[i]);
                }
            }
        }
    }
    // The child with the separator in front.
    assert(u2.wf(d1, sk as int, u_hi)) by {
        let k2 = u2.keys();
        let uk = u.keys();
        assert(k2[0] == sep);
        assert forall|i: int, j: int| 0 <= i < j < k2.len() implies k2[i] < k2[j] by {
            assert(k2[j] == uk[j - 1]);
            if i > 0 {
                assert(k2[i] == uk[i - 1]);
            }
        }
        assert forall|i: int| 0 <= i < k2.len() implies sk < #[trigger] k2[i] < u_hi by {
            if i > 0 {
                assert(k2[i] == uk[i - 1]);
            }
            if c < keys.len() {
                assert(keys[c - 1] < keys[c]);
            }
        }
        if d1 > 0 {
            let moved = s.children@[n];
            assert(moved.wf(
                (d1 - 1) as nat,
                lower_of(s.keys(), n, s_lo),
                upper_of(s.keys(), n, sep as int),
            ));
            assert forall|i: int| 0 <= i < u2.children@.len() implies {
                &&& (#[trigger] u2.children@[i]).wf(
                    (d1 - 1) as nat,
                    lower_of(k2, i, sk as int),
                    upper_of(k2, i, u_hi),
                )
                &&& u2.children@[i].keys().len() >= MIN_KEYS
            } by {
                if i > 0 {
                    assert(u2.children@[i] == u.children@[i - 1]);
                    assert(u.children@[i - 1].wf(
                        (d1 - 1) as nat,
                        lower_of(uk, i - 1, sep as int),
                        upper_of(uk, i - 1, u_hi),
                    ));
                    if i > 1 {
                        assert(k2[i - 1] == uk[i - 2]);
                    }
                    if i < k2.len() {
                        assert(k2[i] == uk[i - 1]);
                    }
                } else {
                    assert(u2.children@[0] == moved);
                }
            }
        }
    }
    assert forall|i: int| 0 <= i < after.children@.len() implies {
        &&& (#[trigger] after.children@[i]).wf(d1, lower_of(keys2, i, lo), upper_of(keys2, i, hi))
        &&& after.children@[i].keys().len() >= MIN_KEYS
    } by {
        if i != c - 1 && i != c {
            assert(after.children@[i] == kids[i]);
            assert(kids[i].wf(d1, lower_of(keys, i, lo), upper_of(keys, i, hi)));
        }
    }
    // Every key is found where it was found before.
    assert forall|k: u64| #[trigger] after.lookup(k) == before.lookup(k) by {
        if k == sk {
            lemma_lookup_cases(keys2, after.values@, after.children@, k, c - 1);
            assert(is_slot(keys, k, c - 1)) by {
                lemma_between(keys, c - 1, k);
            }
            lemma_lookup_cases(keys, values, kids, k, c - 1);
            lemma_lookup_cases(s.keys(), s.values@, s.children@, k, n - 1);
        } else if k == sep {
            lemma_lookup_cases(keys, values, kids, k, c - 1);
            assert(is_slot(keys2, k, c)) by {
                lemma_between(keys2, c, k);
            }
            lemma_lookup_cases(keys2, after.values@, after.children@, k, c);
            lemma_lookup_cases(u2.keys(), u2.values@, u2.children@, k, 0);
        } else if keys.contains(k) {
            let j = keys.index_of(k);
            assert(keys[j] == k);
            assert(keys2[j] == k);
            lemma_lookup_cases(keys, values, kids, k, j);
            lemma_lookup_cases(keys2, after.values@, after.children@, k, j);
        } else {
            lemma_slot_exists(keys, k);
            let t = before.slot(k);
            lemma_lookup_cases(keys, values, kids, k, t);
            if t == c - 1 {
                // Between the sibling's lower bound and the old separator
                lemma_slot_of_child(&s, k, d1, s_lo, sep as int);
                if k < sk {
                    assert(is_slot(keys2, k, c - 1)) by {
                        lemma_between(keys2, c - 1, k);
                    }
                    lemma_lookup_cases(keys2, after.values@, after.children@, k, c - 1);
                    if s.keys().contains(k) {
                        let j = s.keys().index_of(k);
                        assert(s.keys()[j] == k);
                        assert(s2.keys()[j] == k);
                        lemma_lookup_cases(s.keys(), s.values@, s.children@, k, j);
                        lemma_lookup_cases(s2.keys(), s2.values@, s2.children@, k, j);
                    } else {
                        let j = s.slot(k);
                        if j > n - 1 {
                            assert(s.keys()[n - 1] < k);
                        }
                        assert(is_slot(s2.keys(), k, j)) by {
                            assert forall|i: int| 0 <= i < j implies s2.keys()[i] < k by {
                                assert(s2.keys()[i] == s.keys()[i]);
                            }
                            assert forall|i: int| j <= i < s2.keys().len() implies k
                                < s2.keys()[i] by {
                                assert(s2.keys()[i] == s.keys()[i]);
                            }
                        }
                        lemma_lookup_cases(s.keys(), s.values@, s.children@, k, j);
                        lemma_lookup_cases(s2.keys(), s2.values@, s2.children@, k, j);
                    }
                } else {
                    assert(is_slot(keys2, k, c)) by {
                        lemma_between(keys2, c, k);
                    }
                    lemma_lookup_cases(keys2, after.values@, after.children@, k, c);
                    assert(is_slot(s.keys(), k, n)) by {
                        assert forall|i: int| 0 <= i < n implies s.keys()[i] < k by {
                            if i < n - 1 {
                                assert(s.keys()[i] < s.keys()[n - 1]);
                            }
                        }
                    }
                    lemma_lookup_cases(s.keys(), s.values@, s.children@, k, n);
                    assert(is_slot(u2.keys(), k, 0)) by {
                        assert forall|i: int| 0 <= i < u2.keys().len() implies k < u2.keys()[i] by {
                            if i > 0 {
                                assert(u2.keys()[0] < u2.keys()[i]);
                            }
                        }
                    }
                    lemma_lookup_cases(u2.keys(), u2.values@, u2.children@, k, 0);
                }
            } else if t == c {
                lemma_slot_of_child(&u, k, d1, sep as int, u_hi);
                assert(is_slot(keys2, k, c)) by {
                    lemma_between(keys2, c, k);
                }
                lemma_lookup_cases(keys2, after.values@, after.children@, k, c);
                if u.keys().contains(k) {
                    let j = u.keys().index_of(k);
                    assert(u.keys()[j] == k);
                    assert(u2.keys()[j + 1] == k);
                    lemma_lookup_cases(u.keys(), u.values@, u.children@, k, j);
                    lemma_lookup_cases(u2.keys(), u2.values@, u2.children@, k, j + 1);
                } else {
                    let j = u.slot(k);
                    assert(is_slot(u2.keys(), k, j + 1)) by {
                        assert forall|i: int| 0 <= i < j + 1 implies u2.keys()[i] < k by {
                            if i > 0 {
                                assert(u2.keys()[i] == u.keys()[i - 1]);
                            }
                        }
                        assert forall|i: int| j + 1 <= i < u2.keys().len() implies k
                            < u2.keys()[i] by {
                            assert(u2.keys()[i] == u.keys()[i - 1]);
                        }
                    }
                    lemma_lookup_cases(u.keys(), u.values@, u.children@, k, j);
                    lemma_lookup_cases(u2.keys(), u2.values@, u2.children@, k, j + 1);
                }
            } else {
                assert(is_slot(keys2, k, t)) by {
                    assert forall|i: int| 0 <= i < t implies keys2[i] < k by {
                        if i == c - 1 {
                            assert(keys[i] < k);
                        } else {
                            assert(keys2[i] == keys[i]);
                        }
                    }
                    assert forall|i: int| t <= i < keys2.len() implies k < keys2[i] by {
                        if i == c - 1 {
                            assert(k < keys[t]);
                            if t > 0 {
                                assert(keys[t - 1] < k);
                            }
                            if t < c - 1 {
                                assert(keys[t] <= s_lo) by {
                                    if t < c - 2 {
                                        assert(keys[t] < keys[c - 2]);
                                    }
                                }
                            }
                        } else {
                            assert(keys2[i] == keys[i]);
                        }
                    }
                }
                lemma_lookup_cases(keys2, after.values@, after.children@, k, t);
                assert(after.children@[t] == kids[t]);
            }
        }
    }
}

/// A node in which the first pair of the right sibling of child `c` moved
/// up to separate the two, while the pair that separated them moved down
/// to the end of child `c`, together with the sibling's first child, is a
/// B-tree that holds what the node held before.
#[verifier::rlimit(30)]
pub proof fn lemma_rotate_from_right<V>(
    before: &Node<V>,
    after: &Node<V>,
    c: int,
    depth: nat,
    lo: int,
    hi: int,
)
    requires
        depth > 0,
        before.shape(depth, lo, hi, c),
        0 <= c < before.keys().len(),
        before.children@[c + 1].keys().len() > MIN_KEYS,
        before.children@[c].keys().len() < ORDER,
        after.keys() == before.keys().update(c, before.children@[c + 1].keys()[0]),
        after.values@ == before.values@.update(c, before.children@[c + 1].values@[0]),
        after.children@ == before.children@.update(c, after.children@[c]).update(
            c + 1,
            after.children@[c + 1],
        ),
        after.children@.len() == before.children@.len(),
        after.children@[c + 1].keys() == before.children@[c + 1].keys().remove(0),
        after.children@[c + 1].values@ == before.children@[c + 1].values@.remove(0),
        after.children@[c].keys() == before.children@[c].keys().push(before.keys()[c]),
        after.children@[c].values@ == before.children@[c].values@.push(before.values@[c]),
        depth == 1 ==> after.children@[c + 1].children@.len() == 0 && after.children@[c].children@.len()
            == 0,
        depth > 1 ==> after.children@[c + 1].children@ == before.children@[c
            + 1].children@.remove(0) && after.children@[c].children@
            == before.children@[c].children@.push(before.children@[c + 1].children@[0]),
    ensures
        after.wf(depth, lo, hi),
        forall|k: u64| #[trigger] after.lookup(k) == before.lookup(k),
{
    let keys = before.keys();
    let values = before.values@;
    let kids = before.children@;
    let s = kids[c + 1];
    let u = kids[c];
    let s2 = after.children@[c + 1];
    let u2 = after.children@[c];
    let sep = keys[c];
    let n = u.keys().len() as int;
    let sk = s.keys()[0];
    let keys2 = after.keys();
    let d1 = (depth - 1) as nat;
    let s_hi = upper_of(keys, c + 1, hi);
    let u_lo = lower_of(keys, c, lo);
    assert(s.wf(d1, sep as int, s_hi));
    assert(u.wf(d1, u_lo, sep as int));
    assert(sep < sk < s_hi);
    // The keys of the node stay ascending and within bounds.
    assert forall|i: int, j: int| 0 <= i < j < keys2.len() implies keys2[i] < keys2[j] by {
        assert(keys[i] < keys[j]);
        if j == c {
            assert(keys[i] < sep);
        }
        if i == c {
            assert(s_hi <= keys[j]) by {
                if j > c + 1 {
                    assert(keys[c + 1] < keys[j]);
                }
            }
        }
    }
    assert forall|i: int| 0 <= i < keys2.len() implies lo < #[trigger] keys2[i] < hi by {
        assert(lo < keys[i] < hi);
        if c + 1 < keys.len() {
            assert(keys[c + 1] < hi);
        }
    }
    // The right sibling without its first pair.
    assert(s2.wf(d1, sk as int, s_hi)) by {
        let k2 = s2.keys();
        assert forall|i: int, j: int| 0 <= i < j < k2.len() implies k2[i] < k2[j] by {
            assert(k2[i] == s.keys()[i + 1] && k2[j] == s.keys()[j + 1]);
        }
        assert forall|i: int| 0 <= i < k2.len() implies sk < #[trigger] k2[i] < s_hi by {
            assert(k2[i] == s.keys()[i + 1]);
            assert(s.keys()[0] < s.keys()[i + 1]);
        }
        if d1 > 0 {
            assert forall|i: int| 0 <= i < s2.children@.len() implies {
                &&& (#[trigger] s2.children@[i]).wf(
                    (d1 - 1) as nat,
                    lower_of(k2, i, sk as int),
                    upper_of(k2, i, s_hi),
                )
                &&& s2.children@[i].keys().len() >= MIN_KEYS
            } by {
                assert(s2.children@[i] == s.children@[i + 1]);
                assert(s.children@[i + 1].wf(
                    (d1 - 1) as nat,
                    lower_of(s.keys(), i + 1, sep as int),
                    upper_of(s.keys(), i + 1, s_hi),
                ));
                if i > 0 {
                    assert(k2[i - 1] == s.keys()[i]);
                }
                if i < k2.len() {
                    assert(k2[i] == s.keys()[i + 1]);
                }
            }
        }
    }
    // The child with the separator at its end.
    assert(u2.wf(d1, u_lo, sk as int)) by {
        let k2 = u2.keys();
        let uk = u.keys();
        assert(k2[n] == sep);
        assert forall|i: int, j: int| 0 <= i < j < k2.len() implies k2[i] < k2[j] by {
            assert(k2[i] == uk[i]);
            if j < n {
                assert(k2[j] == uk[j]);
            }
        }
        assert forall|i: int| 0 <= i < k2.len() implies u_lo < #[trigger] k2[i] < sk by {
            if i < n {
                assert(k2[i] == uk[i]);
            }
            if c > 0 {
                assert(keys[c - 1] < keys[c]);
            }
        }
        if d1 > 0 {
            let moved = s.children@[0];
            assert(moved.wf(
                (d1 - 1) as nat,
                lower_of(s.keys(), 0, sep as int),
                upper_of(s.keys(), 0, s_hi),
            ));
            assert forall|i: int| 0 <= i < u2.children@.len() implies {
                &&& (#[trigger] u2.children@[i]).wf(
                    (d1 - 1) as nat,
                    lower_of(k2, i, u_lo),
                    upper_of(k2, i, sk as int),
                )
                &&& u2.children@[i].keys().len() >= MIN_KEYS
            } by {
                if i <= n {
                    assert(u2.children@[i] == u.children@[i]);
                    assert(u.children@[i].wf(
                        (d1 - 1) as nat,
                        lower_of(uk, i, u_lo),
                        upper_of(uk, i, sep as int),
                    ));
                    if i > 0 {
                        assert(k2[i - 1] == uk[i - 1]);
                    }
                    if i < n {
                        assert(k2[i] == uk[i]);
                    }
                } else {
                    assert(u2.children@[i] == moved);
                }
            }
        }
    }
    assert forall|i: int| 0 <= i < after.children@.len() implies {
        &&& (#[trigger] after.children@[i]).wf(d1, lower_of(keys2, i, lo), upper_of(keys2, i, hi))
        &&& after.children@[i].keys().len() >= MIN_KEYS
    } by {
        if i != c + 1 && i != c {
            assert(after.children@[i] == kids[i]);
            assert(kids[i].wf(d1, lower_of(keys, i, lo), upper_of(keys, i, hi)));
        }
    }
    // Every key is found where it was found before.
    assert forall|k: u64| #[trigger] after.lookup(k) == before.lookup(k) by {
        if k == sk {
            lemma_lookup_cases(keys2, after.values@, after.children@, k, c);
            assert(is_slot(keys, k, c + 1)) by {
                lemma_between(keys, c + 1, k);
            }
            lemma_lookup_cases(keys, values, kids, k, c + 1);
            lemma_lookup_cases(s.keys(), s.values@, s.children@, k, 0);
        } else if k == sep {
            lemma_lookup_cases(keys, values, kids, k, c);
            assert(is_slot(keys2, k, c)) by {
                lemma_between(keys2, c, k);
            }
            lemma_lookup_cases(keys2, after.values@, after.children@, k, c);
            lemma_lookup_cases(u2.keys(), u2.values@, u2.children@, k, n);
        } else if keys.contains(k) {
            let j = keys.index_of(k);
            assert(keys[j] == k);
            assert(keys2[j] == k);
            lemma_lookup_cases(keys, values, kids, k, j);
            lemma_lookup_cases(keys2, after.values@, after.children@, k, j);
        } else {
            lemma_slot_exists(keys, k);
            let t = before.slot(k);
            lemma_lookup_cases(keys, values, kids, k, t);
            if t == c + 1 {
                // Between the old separator and the sibling's upper bound
                lemma_slot_of_child(&s, k, d1, sep as int, s_hi);
                if k > sk {
                    assert(is_slot(keys2, k, c + 1)) by {
                        lemma_between(keys2, c + 1, k);
                    }
                    lemma_lookup_cases(keys2, after.values@, after.children@, k, c + 1);
                    if s.keys().contains(k) {
                        let j = s.keys().index_of(k);
                        assert(s.keys()[j] == k);
                        assert(s2.keys()[j - 1] == k);
                        lemma_lookup_cases(s.keys(), s.values@, s.children@, k, j);
                        lemma_lookup_cases(s2.keys(), s2.values@, s2.children@, k, j - 1);
                    } else {
                        let j = s.slot(k);
                        if j < 1 {
                            assert(k < s.keys()[0]);
                        }
                        assert(is_slot(s2.keys(), k, j - 1)) by {
                            assert forall|i: int| 0 <= i < j - 1 implies s2.keys()[i] < k by {
                                assert(s2.keys()[i] == s.keys()[i + 1]);
                            }
                            assert forall|i: int| j - 1 <= i < s2.keys().len() implies k
                                < s2.keys()[i] by {
                                assert(s2.keys()[i] == s.keys()[i + 1]);
                            }
                        }
                        lemma_lookup_cases(s.keys(), s.values@, s.children@, k, j);
                        lemma_lookup_cases(s2.keys(), s2.values@, s2.children@, k, j - 1);
                    }
                } else {
                    assert(is_slot(keys2, k, c)) by {
                        lemma_between(keys2, c, k);
                    }
                    lemma_lookup_cases(keys2, after.values@, after.children@, k, c);
                    assert(is_slot(s.keys(), k, 0)) by {
                        assert forall|i: int| 0 <= i < s.keys().len() implies k < s.keys()[i] by {
                            if i > 0 {
                                assert(s.keys()[0] < s.keys()[i]);
                            }
                        }
                    }
                    lemma_lookup_cases(s.keys(), s.values@, s.children@, k, 0);
                    assert(is_slot(u2.keys(), k, n + 1)) by {
                        assert forall|i: int| 0 <= i < n + 1 implies u2.keys()[i] < k by {
                            if i < n {
                                assert(u2.keys()[i] < u2.keys()[n]);
                            }
                        }
                    }
                    lemma_lookup_cases(u2.keys(), u2.values@, u2.children@, k, n + 1);
                }
            } else if t == c {
                lemma_slot_of_child(&u, k, d1, u_lo, sep as int);
                assert(is_slot(keys2, k, c)) by {
                    lemma_between(keys2, c, k);
                }
                lemma_lookup_cases(keys2, after.values@, after.children@, k, c);
                if u.keys().contains(k) {
                    let j = u.keys().index_of(k);
                    assert(u.keys()[j] == k);
                    assert(u2.keys()[j] == k);
                    lemma_lookup_cases(u.keys(), u.values@, u.children@, k, j);
                    lemma_lookup_cases(u2.keys(), u2.values@, u2.children@, k, j);
                } else {
                    let j = u.slot(k);
                    assert(is_slot(u2.keys(), k, j)) by {
                        assert forall|i: int| 0 <= i < j implies u2.keys()[i] < k by {
                            assert(u2.keys()[i] == u.keys()[i]);
                        }
                        assert forall|i: int| j <= i < u2.keys().len() implies k
                            < u2.keys()[i] by {
                            if i < n {
                                assert(u2.keys()[i] == u.keys()[i]);
                            }
                        }
                    }
                    lemma_lookup_cases(u.keys(), u.values@, u.children@, k, j);
                    lemma_lookup_cases(u2.keys(), u2.values@, u2.children@, k, j);
                }
            } else {
                assert(is_slot(keys2, k, t)) by {
                    assert forall|i: int| 0 <= i < t implies keys2[i] < k by {
                        if i == c {
                            assert(keys[t - 1] < k);
                            assert(s_hi <= keys[t - 1]) by {
                                if t - 1 > c + 1 {
                                    assert(keys[c + 1] < keys[t - 1]);
                                }
                            }
                        } else {
                            assert(keys2[i] == keys[i]);
                        }
                    }
                    assert forall|i: int| t <= i < keys2.len() implies k < keys2[i] by {
                        if i == c {
                            assert(k < keys[t]);
                            if t < c {
                                assert(keys[t] < keys[c]);
                            }
                        } else {
                            assert(keys2[i] == keys[i]);
                        }
                    }
                }
                lemma_lookup_cases(keys2, after.values@, after.children@, k, t);
                assert(after.children@[t] == kids[t]);
            }
        }
    }
}

/// Two B-trees of one depth that lie on either side of a key, fused with
/// the key between them into one node, make up a B-tree that holds the
/// key and what the two held.
#[verifier::rlimit(30)]
pub proof fn lemma_fused<V>(
    l: &Node<V>,
    r: &Node<V>,
    m: &Node<V>,
    sep: u64,
    sep_value: V,
    depth: nat,
    lo: int,
    hi: int,
)
    requires
        l.wf(depth, lo, sep as int),
        r.wf(depth, sep as int, hi),
        lo < sep < hi,
        l.keys().len() + r.keys().len() + 1 <= ORDER,
        m.keys() == l.keys().push(sep) + r.keys(),
        m.values@ == l.values@.push(sep_value) + r.values@,
        m.children@ == l.children@ + r.children@,
    ensures
        m.wf(depth, lo, hi),
        forall|k: u64|
            #[trigger] m.lookup(k) == (if k < sep {
                l.lookup(k)
            } else if k == sep {
                Some(sep_value)
            } else {
                r.lookup(k)
            }),
{
    let n = l.keys().len() as int;
    let lk = l.keys();
    let rk = r.keys();
    let mk = m.keys();
    assert(mk.len() == n + 1 + rk.len());
    assert forall|a: int| 0 <= a < mk.len() implies #[trigger] mk[a] == (if a < n {
        lk[a]
    } else if a == n {
        sep
    } else {
        rk[a - n - 1]
    }) by {}
    assert forall|a: int, b: int| 0 <= a < b < mk.len() implies mk[a] < mk[b] by {
        if a < n {
            assert(lo < lk[a] < sep);
        }
        if b > n {
            assert(sep < rk[b - n - 1] < hi);
        }
        if b < n {
            assert(lk[a] < lk[b]);
        }
        if a > n {
            assert(rk[a - n - 1] < rk[b - n - 1]);
        }
    }
    assert forall|a: int| 0 <= a < mk.len() implies lo < #[trigger] mk[a] < hi by {
        if a < n {
            assert(lo < lk[a] < sep);
        }
        if a > n {
            assert(sep < rk[a - n - 1] < hi);
        }
    }
    if depth > 0 {
        assert forall|a: int| 0 <= a < m.children@.len() implies {
            &&& (#[trigger] m.children@[a]).wf(
                (depth - 1) as nat,
                lower_of(mk, a, lo),
                upper_of(mk, a, hi),
            )
            &&& m.children@[a].keys().len() >= MIN_KEYS
        } by {
            if a <= n {
                assert(m.children@[a] == l.children@[a]);
                assert(l.children@[a].wf(
                    (depth - 1) as nat,
                    lower_of(lk, a, lo),
                    upper_of(lk, a, sep as int),
                ));
                if a > 0 {
                    assert(mk[a - 1] == lk[a - 1]);
                }
                if a < n {
                    assert(mk[a] == lk[a]);
                } else {
                    assert(mk[a] == sep);
                }
            } else {
                let b = a - n - 1;
                assert(m.children@[a] == r.children@[b]);
                assert(r.children@[b].wf(
                    (depth - 1) as nat,
                    lower_of(rk, b, sep as int),
                    upper_of(rk, b, hi),
                ));
                if b > 0 {
                    assert(mk[a - 1] == rk[b - 1]);
                } else {
                    assert(mk[a - 1] == sep);
                }
                if b < rk.len() {
                    assert(mk[a] == rk[b]);
                }
            }
        }
    }
    assert forall|k: u64| #[trigger] m.lookup(k) == (if k < sep {
        l.lookup(k)
    } else if k == sep {
        Some(sep_value)
    } else {
        r.lookup(k)
    }) by {
        if k == sep {
            assert(mk[n] == sep);
            lemma_lookup_cases(mk, m.values@, m.children@, k, n);
        } else if k < sep {
            lemma_slot_of_child(l, k, depth, lo, sep as int);
            if lk.contains(k) {
                let j = lk.index_of(k);
                assert(lk[j] == k);
                assert(mk[j] == k);
                lemma_lookup_cases(lk, l.values@, l.children@, k, j);
                lemma_lookup_cases(mk, m.values@, m.children@, k, j);
            } else {
                let j = l.slot(k);
                assert(is_slot(mk, k, j)) by {
                    assert forall|a: int| 0 <= a < j implies mk[a] < k by {
                        assert(mk[a] == lk[a]);
                    }
                    assert forall|a: int| j <= a < mk.len() implies k < mk[a] by {
                        if a < n {
                            assert(mk[a] == lk[a]);
                        } else if a > n {
                            assert(sep < rk[a - n - 1]);
                        }
                    }
                }
                lemma_lookup_cases(lk, l.values@, l.children@, k, j);
                lemma_lookup_cases(mk, m.values@, m.children@, k, j);
                if depth > 0 {
                    assert(m.children@[j] == l.children@[j]);
                }
            }
        } else {
            lemma_slot_of_child(r, k, depth, sep as int, hi);
            if rk.contains(k) {
                let j = rk.index_of(k);
                assert(rk[j] == k);
                assert(mk[j + n + 1] == k);
                lemma_lookup_cases(rk, r.values@, r.children@, k, j);
                lemma_lookup_cases(mk, m.values@, m.children@, k, j + n + 1);
            } else {
                let j = r.slot(k);
                assert(is_slot(mk, k, j + n + 1)) by {
                    assert forall|a: int| 0 <= a < j + n + 1 implies mk[a] < k by {
                        if a < n {
                            assert(lk[a] < sep);
                        } else if a > n {
                            assert(mk[a] == rk[a - n - 1]);
                        }
                    }
                    assert forall|a: int| j + n + 1 <= a < mk.len() implies k < mk[a] by {
                        assert(mk[a] == rk[a - n - 1]);
                    }
                }
                lemma_lookup_cases(rk, r.values@, r.children@, k, j);
                lemma_lookup_cases(mk, m.values@, m.children@, k, j + n + 1);
                if depth > 0 {
                    assert(m.children@[j + n + 1] == r.children@[j]);
                }
            }
        }
    }
}

/// What holds of a node and of the node that comes of it when child `i`,
/// the pair that separates it from its right sibling, and that sibling
/// are fused into one child.
pub open spec fn merged_at<V>(before: &Node<V>, after: &Node<V>, i: int) -> bool {
    &&& 0 <= i < before.keys().len()
    &&& before.children@.len() == before.keys().len() + 1
    &&& before.children@[i].keys().len() + before.children@[i + 1].keys().len() + 1 <= ORDER
    &&& after.keys() == before.keys().remove(i)
    &&& after.values@ == before.values@.remove(i)
    &&& after.children@ == before.children@.remove(i + 1).update(i, after.children@[i])
    &&& after.children@[i].keys() == before.children@[i].keys().push(before.keys()[i])
        + before.children@[i + 1].keys()
    &&& after.children@[i].values@ == before.children@[i].values@.push(before.values@[i])
        + before.children@[i + 1].values@
    &&& after.children@[i].children@ == before.children@[i].children@ + before.children@[i
        + 1].children@
}

/// A node in which two children were fused is a B-tree.
#[verifier::rlimit(30)]
pub proof fn lemma_merge_shape<V>(
    before: &Node<V>,
    after: &Node<V>,
    i: int,
    depth: nat,
    lo: int,
    hi: int,
    weak: int,
)
    requires
        depth > 0,
        before.shape(depth, lo, hi, weak),
        weak == i || weak == i + 1,
        merged_at(before, after, i),
    ensures
        after.wf(depth, lo, hi),
{
    let keys = before.keys();
    let kids = before.children@;
    let l = kids[i];
    let r = kids[i + 1];
    let m = after.children@[i];
    let sep = keys[i];
    let keys2 = after.keys();
    let d1 = (depth - 1) as nat;
    let l_lo = lower_of(keys, i, lo);
    let r_hi = upper_of(keys, i + 1, hi);
    assert(l.wf(d1, l_lo, sep as int));
    assert(r.wf(d1, sep as int, r_hi));
    assert forall|a: int, b: int| 0 <= a < b < keys2.len() implies keys2[a] < keys2[b] by {
        let a0 = if a < i { a } else { a + 1 };
        let b0 = if b < i { b } else { b + 1 };
        assert(keys2[a] == keys[a0] && keys2[b] == keys[b0]);
    }
    assert forall|a: int| 0 <= a < keys2.len() implies lo < #[trigger] keys2[a] < hi by {
        let a0 = if a < i { a } else { a + 1 };
        assert(keys2[a] == keys[a0]);
    }
    assert(l_lo == lower_of(keys2, i, lo)) by {
        if i > 0 {
            assert(keys2[i - 1] == keys[i - 1]);
        }
    }
    assert(r_hi == upper_of(keys2, i, hi)) by {
        if i < keys2.len() {
            assert(keys2[i] == keys[i + 1]);
        }
    }
    assert(l_lo < sep < r_hi) by {
        if i > 0 {
            assert(keys[i - 1] < keys[i]);
        }
        if i + 1 < keys.len() {
            assert(keys[i] < keys[i + 1]);
        }
    }
    lemma_fused(&l, &r, &m, sep, before.values@[i], d1, l_lo, r_hi);
    assert forall|a: int| 0 <= a < after.children@.len() implies {
        &&& (#[trigger] after.children@[a]).wf(d1, lower_of(keys2, a, lo), upper_of(keys2, a, hi))
        &&& after.children@[a].keys().len() >= MIN_KEYS
    } by {
        if a < i {
            assert(after.children@[a] == kids[a]);
            assert(kids[a].wf(d1, lower_of(keys, a, lo), upper_of(keys, a, hi)));
            if a > 0 {
                assert(keys2[a - 1] == keys[a - 1]);
            }
            assert(keys2[a] == keys[a]);
        } else if a > i {
            assert(after.children@[a] == kids[a + 1]);
            assert(kids[a + 1].wf(d1, lower_of(keys, a + 1, lo), upper_of(keys, a + 1, hi)));
            assert(keys2[a - 1] == keys[a]);
            if a < keys2.len() {
                assert(keys2[a] == keys[a + 1]);
            }
        }
    }
}

/// A node in which two children were fused holds what it held before.
#[verifier::rlimit(30)]
pub proof fn lemma_merge_lookup<V>(
    before: &Node<V>,
    after: &Node<V>,
    i: int,
    depth: nat,
    lo: int,
    hi: int,
    weak: int,
)
    requires
        depth > 0,
        before.shape(depth, lo, hi, weak),
        weak == i || weak == i + 1,
        merged_at(before, after, i),
    ensures
        forall|k: u64| #[trigger] after.lookup(k) == before.lookup(k),
{
    let keys = before.keys();
    let values = before.values@;
    let kids = before.children@;
    let l = kids[i];
    let r = kids[i + 1];
    let m = after.children@[i];
    let sep = keys[i];
    let keys2 = after.keys();
    let d1 = (depth - 1) as nat;
    let l_lo = lower_of(keys, i, lo);
    let r_hi = upper_of(keys, i + 1, hi);
    assert(l.wf(d1, l_lo, sep as int));
    assert(r.wf(d1, sep as int, r_hi));
    assert(l_lo < sep < r_hi) by {
        if i > 0 {
            assert(keys[i - 1] < keys[i]);
        }
        if i + 1 < keys.len() {
            assert(keys[i] < keys[i + 1]);
        }
    }
    lemma_merge_shape(before, after, i, depth, lo, hi, weak);
    lemma_fused(&l, &r, &m, sep, values[i], d1, l_lo, r_hi);
    assert forall|k: u64| #[trigger] after.lookup(k) == before.lookup(k) by {
        if k == sep {
            lemma_lookup_cases(keys, values, kids, k, i);
            assert(is_slot(keys2, k, i)) by {
                lemma_between(keys2, i, k);
            }
            lemma_lookup_cases(keys2, after.values@, after.children@, k, i);
        } else if keys.contains(k) {
            let j = keys.index_of(k);
            assert(keys[j] == k);
            let j2 = if j < i { j } else { j - 1 };
            assert(keys2[j2] == k);
            lemma_lookup_cases(keys, values, kids, k, j);
            lemma_lookup_cases(keys2, after.values@, after.children@, k, j2);
        } else {
            lemma_slot_exists(keys, k);
            let t = before.slot(k);
            lemma_lookup_cases(keys, values, kids, k, t);
            if t == i || t == i + 1 {
                assert(is_slot(keys2, k, i)) by {
                    lemma_between(keys2, i, k);
                }
                lemma_lookup_cases(keys2, after.values@, after.children@, k, i);
                if t == i {
                    assert(k < sep);
                } else {
                    assert(sep < k);
                }
            } else {
                let t2 = if t < i { t } else { t - 1 };
                assert(is_slot(keys2, k, t2)) by {
                    assert forall|a: int| 0 <= a < t2 implies keys2[a] < k by {
                        let a0 = if a < i { a } else { a + 1 };
                        assert(keys2[a] == keys[a0]);
                    }
                    assert forall|a: int| t2 <= a < keys2.len() implies k < keys2[a] by {
                        let a0 = if a < i { a } else { a + 1 };
                        assert(keys2[a] == keys[a0]);
                    }
                }
                lemma_lookup_cases(keys2, after.values@, after.children@, k, t2);
                assert(after.children@[t2] == kids[t]);
            }
        }
    }
}

/// A node in which the key at position `idx` gave way to the largest key
/// of the child on its left, taken out of that child, is a B-tree that
/// holds what the node held before but for the key that gave way. The
/// child may have underflowed.
#[verifier::rlimit(30)]
pub proof fn lemma_replace_from_left<V>(
    before: &Node<V>,
    after: &Node<V>,
    idx: int,
    depth: nat,
    lo: int,
    hi: int,
)
    requires
        depth > 0,
        before.wf(depth, lo, hi),
        0 <= idx < before.keys().len(),
        after.keys() == before.keys().update(idx, after.keys()[idx]),
        after.values@ == before.values@.update(idx, after.values@[idx]),
        after.children@ == before.children@.update(idx, after.children@[idx]),
        before.lower(idx, lo) < after.keys()[idx] < before.keys()[idx],
        after.children@[idx].wf(
            (depth - 1) as nat,
            before.lower(idx, lo),
            after.keys()[idx] as int,
        ),
        after.children@[idx].keys().len() + 1 >= MIN_KEYS,
        before.children@[idx].lookup(after.keys()[idx]) == Some(after.values@[idx]),
        forall|k: u64|
            #[trigger] after.children@[idx].lookup(k) == without(
                before.children@[idx].lookup(k),
                k,
                after.keys()[idx],
            ),
    ensures
        after.shape(depth, lo, hi, idx),
        after.children@[idx].keys().len() >= MIN_KEYS ==> after.wf(depth, lo, hi),
        before.lookup(before.keys()[idx]) == Some(before.values@[idx]),
        forall|k: u64| #[trigger] after.lookup(k) == without(before.lookup(k), k, before.keys()[idx]),
{
    let keys = before.keys();
    let values = before.values@;
    let kids = before.children@;
    let keys2 = after.keys();
    let gone = keys[idx];
    let p = keys2[idx];
    let d1 = (depth - 1) as nat;
    let l = kids[idx];
    let l2 = after.children@[idx];
    let r = kids[idx + 1];
    let l_lo = lower_of(keys, idx, lo);
    let r_hi = upper_of(keys, idx + 1, hi);
    assert(r.wf(d1, gone as int, r_hi));
    assert(l.wf(d1, l_lo, gone as int));
    assert forall|i: int, j: int| 0 <= i < j < keys2.len() implies keys2[i] < keys2[j] by {
        assert(keys[i] < keys[j]);
        if j == idx {
            assert(keys[i] <= l_lo) by {
                if i < idx - 1 {
                    assert(keys[i] < keys[idx - 1]);
                }
            }
        }
    }
    assert forall|i: int| 0 <= i < keys2.len() implies lo < #[trigger] keys2[i] < hi by {
        assert(lo < keys[i] < hi);
        if idx > 0 {
            assert(lo < keys[idx - 1]);
        }
    }
    assert forall|i: int| 0 <= i < after.children@.len() implies {
        &&& (#[trigger] after.children@[i]).wf(d1, lower_of(keys2, i, lo), upper_of(keys2, i, hi))
        &&& after.children@[i].keys().len() + (if i == idx {
            1nat
        } else {
            0nat
        }) >= MIN_KEYS
    } by {
        if i != idx {
            assert(after.children@[i] == kids[i]);
            assert(kids[i].wf(d1, lower_of(keys, i, lo), upper_of(keys, i, hi)));
            if i == idx + 1 {
                lemma_widen(&r, d1, gone as int, r_hi, p as int, r_hi, -1);
            }
        }
    }
    lemma_lookup_cases(keys, values, kids, gone, idx);
    assert forall|k: u64| #[trigger]
        after.lookup(k) == without(before.lookup(k), k, gone) by {
        if k == gone {
            assert(is_slot(keys2, k, idx + 1)) by {
                lemma_between(keys2, idx + 1, k);
            }
            lemma_lookup_cases(keys2, after.values@, after.children@, k, idx + 1);
            lemma_outside_bounds(&r, k, d1, gone as int, r_hi);
        } else if k == p {
            lemma_lookup_cases(keys2, after.values@, after.children@, k, idx);
            assert(is_slot(keys, k, idx)) by {
                lemma_between(keys, idx, k);
            }
            lemma_lookup_cases(keys, values, kids, k, idx);
        } else if keys.contains(k) {
            let j = keys.index_of(k);
            assert(keys[j] == k);
            assert(keys2[j] == k);
            lemma_lookup_cases(keys, values, kids, k, j);
            lemma_lookup_cases(keys2, after.values@, after.children@, k, j);
        } else {
            lemma_slot_exists(keys, k);
            let t = before.slot(k);
            lemma_lookup_cases(keys, values, kids, k, t);
            if t == idx {
                assert(l2.lookup(k) == without(l.lookup(k), k, p));
                if k < p {
                    assert(is_slot(keys2, k, idx)) by {
                        lemma_between(keys2, idx, k);
                    }
                    lemma_lookup_cases(keys2, after.values@, after.children@, k, idx);
                } else {
                    // Between the new key and the old one there is nothing.
                    assert(is_slot(keys2, k, idx + 1)) by {
                        lemma_between(keys2, idx + 1, k);
                    }
                    lemma_lookup_cases(keys2, after.values@, after.children@, k, idx + 1);
                    lemma_outside_bounds(&l2, k, d1, l_lo, p as int);
                    lemma_outside_bounds(&r, k, d1, gone as int, r_hi);
                }
            } else {
                assert(is_slot(keys2, k, t)) by {
                    assert forall|i: int| 0 <= i < t implies keys2[i] < k by {
                        assert(keys[i] < k);
                    }
                    assert forall|i: int| t <= i < keys2.len() implies k < keys2[i] by {
                        assert(k < keys[i]);
                        if i == idx {
                            assert(t < idx);
                            assert(k < keys[t]);
                            assert(keys[t] <= l_lo) by {
                                if t < idx - 1 {
                                    assert(keys[t] < keys[idx - 1]);
                                }
                            }
                        }
                    }
                }
                lemma_lookup_cases(keys2, after.values@, after.children@, k, t);
                assert(after.children@[t] == kids[t]);
            }
        }
    }
}

/// A node in which the key at position `idx` gave way to the smallest key
/// of the child on its right, taken out of that child, is a B-tree that
/// holds what the node held before but for the key that gave way. The
/// child may have underflowed.
#[verifier::rlimit(30)]
pub proof fn lemma_replace_from_right<V>(
    before: &Node<V>,
    after: &Node<V>,
    idx: int,
    depth: nat,
    lo: int,
    hi: int,
)
    requires
        depth > 0,
        before.wf(depth, lo, hi),
        0 <= idx < before.keys().len(),
        after.keys() == before.keys().update(idx, after.keys()[idx]),
        after.values@ == before.values@.update(idx, after.values@[idx]),
        after.children@ == before.children@.update(idx + 1, after.children@[idx + 1]),
        before.keys()[idx] < after.keys()[idx] < before.upper(idx + 1, hi),
        after.children@[idx + 1].wf(
            (depth - 1) as nat,
            after.keys()[idx] as int,
            before.upper(idx + 1, hi),
        ),
        after.children@[idx + 1].keys().len() + 1 >= MIN_KEYS,
        before.children@[idx + 1].lookup(after.keys()[idx]) == Some(after.values@[idx]),
        forall|k: u64|
            #[trigger] after.children@[idx + 1].lookup(k) == without(
                before.children@[idx + 1].lookup(k),
                k,
                after.keys()[idx],
            ),
    ensures
        after.shape(depth, lo, hi, idx + 1),
        after.children@[idx + 1].keys().len() >= MIN_KEYS ==> after.wf(depth, lo, hi),
        before.lookup(before.keys()[idx]) == Some(before.values@[idx]),
        forall|k: u64| #[trigger] after.lookup(k) == without(before.lookup(k), k, before.keys()[idx]),
{
    let keys = before.keys();
    let values = before.values@;
    let kids = before.children@;
    let keys2 = after.keys();
    let gone = keys[idx];
    let p = keys2[idx];
    let d1 = (depth - 1) as nat;
    let l = kids[idx];
    let r = kids[idx + 1];
    let r2 = after.children@[idx + 1];
    let l_lo = lower_of(keys, idx, lo);
    let r_hi = upper_of(keys, idx + 1, hi);
    assert(r.wf(d1, gone as int, r_hi));
    assert(l.wf(d1, l_lo, gone as int));
    assert forall|i: int, j: int| 0 <= i < j < keys2.len() implies keys2[i] < keys2[j] by {
        assert(keys[i] < keys[j]);
        if i == idx {
            assert(r_hi <= keys[j]) by {
                if j > idx + 1 {
                    assert(keys[idx + 1] < keys[j]);
                }
            }
        }
    }
    assert forall|i: int| 0 <= i < keys2.len() implies lo < #[trigger] keys2[i] < hi by {
        assert(lo < keys[i] < hi);
        if idx + 1 < keys.len() {
            assert(keys[idx + 1] < hi);
        }
    }
    assert forall|i: int| 0 <= i < after.children@.len() implies {
        &&& (#[trigger] after.children@[i]).wf(d1, lower_of(keys2, i, lo), upper_of(keys2, i, hi))
        &&& after.children@[i].keys().len() + (if i == idx + 1 {
            1nat
        } else {
            0nat
        }) >= MIN_KEYS
    } by {
        if i != idx + 1 {
            assert(after.children@[i] == kids[i]);
            assert(kids[i].wf(d1, lower_of(keys, i, lo), upper_of(keys, i, hi)));
            if i == idx {
                lemma_widen(&l, d1, l_lo, gone as int, l_lo, p as int, -1);
            }
        }
    }
    lemma_lookup_cases(keys, values, kids, gone, idx);
    assert forall|k: u64| #[trigger]
        after.lookup(k) == without(before.lookup(k), k, gone) by {
        if k == gone {
            assert(is_slot(keys2, k, idx)) by {
                lemma_between(keys2, idx, k);
            }
            lemma_lookup_cases(keys2, after.values@, after.children@, k, idx);
            lemma_outside_bounds(&l, k, d1, l_lo, gone as int);
        } else if k == p {
            lemma_lookup_cases(keys2, after.values@, after.children@, k, idx);
            assert(is_slot(keys, k, idx + 1)) by {
                lemma_between(keys, idx + 1, k);
            }
            lemma_lookup_cases(keys, values, kids, k, idx + 1);
        } else if keys.contains(k) {
            let j = keys.index_of(k);
            assert(keys[j] == k);
            assert(keys2[j] == k);
            lemma_lookup_cases(keys, values, kids, k, j);
            lemma_lookup_cases(keys2, after.values@, after.children@, k, j);
        } else {
            lemma_slot_exists(keys, k);
            let t = before.slot(k);
            lemma_lookup_cases(keys, values, kids, k, t);
            if t == idx + 1 {
                assert(r2.lookup(k) == without(r.lookup(k), k, p));
                if k > p {
                    assert(is_slot(keys2, k, idx + 1)) by {
                        lemma_between(keys2, idx + 1, k);
                    }
                    lemma_lookup_cases(keys2, after.values@, after.children@, k, idx + 1);
                } else {
                    // Between the old key and the new one there is nothing.
                    assert(is_slot(keys2, k, idx)) by {
                        lemma_between(keys2, idx, k);
                    }
                    lemma_lookup_cases(keys2, after.values@, after.children@, k, idx);
                    lemma_outside_bounds(&r2, k, d1, p as int, r_hi);
                    lemma_outside_bounds(&l, k, d1, l_lo, gone as int);
                }
            } else {
                assert(is_slot(keys2, k, t)) by {
                    assert forall|i: int| 0 <= i < t implies keys2[i] < k by {
                        assert(keys[i] < k);
                        if i == idx {
                            assert(t > idx + 1);
                            assert(keys[t - 1] < k);
                            assert(r_hi <= keys[t - 1]) by {
                                if t - 1 > idx + 1 {
                                    assert(keys[idx + 1] < keys[t - 1]);
                                }
                            }
                        }
                    }
                    assert forall|i: int| t <= i < keys2.len() implies k < keys2[i] by {
                        assert(k < keys[i]);
                    }
                }
                lemma_lookup_cases(keys2, after.values@, after.children@, k, t);
                assert(after.children@[t] == kids[t]);
            }
        }
    }
}

/// A B-tree whose keys all lie below `k` is a B-tree with upper bound `k`.
pub proof fn lemma_tighten_hi<V>(node: &Node<V>, depth: nat, lo: int, hi: int, k: int, weak: int)
    requires
        node.shape(depth, lo, hi, weak),
        k <= hi,
        forall|i: int| 0 <= i < node.keys().len() ==> #[trigger] node.keys()[i] < k,
        depth > 0 ==> node.children@.last().wf(
            (depth - 1) as nat,
            node.lower(node.keys().len() as int, lo),
            k,
        ),
    ensures
        node.shape(depth, lo, k, weak),
{
    let keys = node.keys();
    assert forall|i: int| 0 <= i < keys.len() implies lo < #[trigger] keys[i] < k by {
        assert(lo < keys[i] < hi);
    }
    if depth > 0 {
        assert forall|i: int| 0 <= i < node.children@.len() implies (#[trigger] node.children@[i]).wf(
            (depth - 1) as nat,
            lower_of(keys, i, lo),
            upper_of(keys, i, k),
        ) by {
            assert(node.children@[i].wf(
                (depth - 1) as nat,
                lower_of(keys, i, lo),
                upper_of(keys, i, hi),
            ));
        }
    }
}

/// A B-tree whose keys all lie above `k` is a B-tree with lower bound `k`.
pub proof fn lemma_tighten_lo<V>(node: &Node<V>, depth: nat, lo: int, hi: int, k: int, weak: int)
    requires
        node.shape(depth, lo, hi, weak),
        lo <= k,
        forall|i: int| 0 <= i < node.keys().len() ==> k < #[trigger] node.keys()[i],
        depth > 0 ==> node.children@[0].wf((depth - 1) as nat, k, node.upper(0, hi)),
    ensures
        node.shape(depth, k, hi, weak),
{
    let keys = node.keys();
    assert forall|i: int| 0 <= i < keys.len() implies k < #[trigger] keys[i] < hi by {
        assert(lo < keys[i] < hi);
    }
    if depth > 0 {
        assert forall|i: int| 0 <= i < node.children@.len() implies (#[trigger] node.children@[i]).wf(
            (depth - 1) as nat,
            lower_of(keys, i, k),
            upper_of(keys, i, hi),
        ) by {
            assert(node.children@[i].wf(
                (depth - 1) as nat,
                lower_of(keys, i, lo),
                upper_of(keys, i, hi),
            ));
        }
    }
}

/// A key strictly between key `i - 1` and key `i` of strictly ascending
/// keys has insertion position `i`.
pub proof fn lemma_between(keys: Seq<u64>, i: int, k: u64)
    requires
        strictly_ascending(keys),
        0 <= i <= keys.len(),
        i > 0 ==> keys[i - 1] < k,
        i < keys.len() ==> k < keys[i],
    ensures
        is_slot(keys, k, i),
{
    assert forall|j: int| 0 <= j < i implies keys[j] < k by {
        if j < i - 1 {
            assert(keys[j] < keys[i - 1]);
        }
    }
    assert forall|j: int| i <= j < keys.len() implies k < keys[j] by {
        if j > i {
            assert(keys[i] < keys[j]);
        }
    }
}

/// In a node with strictly ascending keys, a key is one of the node's
/// keys or has an insertion position among them.
pub proof fn lemma_slot_of_child<V>(node: &Node<V>, k: u64, depth: nat, lo: int, hi: int)
    requires
        node.wf(depth, lo, hi),
    ensures
        !node.keys().contains(k) ==> is_slot(node.keys(), k, node.slot(k)),
{
    if !node.keys().contains(k) {
        lemma_slot_exists(node.keys(), k);
    }
}

/// Appends the keys of `src` to `dst`.
pub(crate) fn keys_append(dst: &mut arrayvec::ArrayVec<u64, 8>, src: &arrayvec::ArrayVec<u64, 8>)
    requires
        key_seq(*old(dst)).len() + key_seq(*src).len() <= ORDER,
    ensures
        key_seq(*final(dst)) == key_seq(*old(dst)) + key_seq(*src),
{
    let n = keys_len(src);
    let mut j: usize = 0;
    while j < n
        invariant
            n == key_seq(*src).len(),
            j <= n,
            key_seq(*old(dst)).len() + n <= ORDER,
            key_seq(*dst) == key_seq(*old(dst)) + key_seq(*src).subrange(0, j as int),
        decreases n - j,
    {
        let k = keys_get(src, j);
        keys_push(dst, k);
        proof {
            assert(key_seq(*dst) =~= key_seq(*old(dst)) + key_seq(*src).subrange(0, j + 1));
        }
        j = j + 1;
    }
    proof {
        assert(key_seq(*src).subrange(0, n as int) =~= key_seq(*src));
    }
}

/// This handles the case where a child of `node` has underflowed and we
/// are trying to fix it by moving a key from its left sibling.
///
/// This moves a key from `node` into the underflowed child to fix it, and
/// moves a key from its left sibling to fill the gap in `node` (a
/// three-way rotation). Below inner nodes the sibling's last child moves
/// over with it. Nothing is done, and `false` returned, when there is no
/// left sibling or it has no key to spare.
#[verifier::rlimit(30)]
pub(crate) fn rotate_from_left<V>(
    node: &mut Node<V>,
    child_idx: usize,
    Ghost(depth): Ghost<nat>,
    Ghost(lo): Ghost<int>,
    Ghost(hi): Ghost<int>,
) -> (rotated: bool)
    requires
        depth > 0,
        old(node).shape(depth, lo, hi, child_idx as int),
        child_idx < old(node).children@.len(),
        old(node).children@[child_idx as int].keys().len() < MIN_KEYS,
    ensures
        rotated == (child_idx > 0 && old(node).children@[child_idx - 1].keys().len() > MIN_KEYS),
        rotated ==> final(node).wf(depth, lo, hi),
        rotated ==> final(node).keys().len() == old(node).keys().len(),
        rotated ==> forall|k: u64| #[trigger] final(node).lookup(k) == old(node).lookup(k),
        !rotated ==> *final(node) == *old(node),
{
    if child_idx == 0 {
        // No left sibling exists
        return false;
    }
    let ghost before = *node;
    proof {
        assert(before.children@[child_idx - 1].wf(
            (depth - 1) as nat,
            before.lower(child_idx - 1, lo),
            before.upper(child_idx - 1, hi),
        ));
        assert(before.children@[child_idx as int].wf(
            (depth - 1) as nat,
            before.lower(child_idx as int, lo),
            before.upper(child_idx as int, hi),
        ));
    }
    if keys_len(&node.children[child_idx - 1].keys) <= MIN_KEYS {
        // Left sibling has no key to spare
        return false;
    }
    let left_sibling = &mut node.children[child_idx - 1];
    let left_key = keys_pop(&mut left_sibling.keys).unwrap();
    let left_value = left_sibling.values.pop().unwrap();
    let left_child = left_sibling.children.pop();

    let node_key = keys_get(&node.keys, child_idx - 1);
    keys_set(&mut node.keys, child_idx - 1, left_key);
    node.values.push(left_value);
    let node_value = node.values.swap_remove(child_idx - 1);

    let child = &mut node.children[child_idx];
    keys_insert(&mut child.keys, 0, node_key);
    child.values.insert(0, node_value);
    match left_child {
        Some(moved) => {
            child.children.insert(0, moved);
        },
        None => {},
    }
    proof {
        assert(node.values@ =~= before.values@.update(
            child_idx - 1,
            before.children@[child_idx - 1].values@.last(),
        ));
        assert(node.children@ =~= before.children@.update(
            child_idx - 1,
            node.children@[child_idx - 1],
        ).update(child_idx as int, node.children@[child_idx as int]));
        lemma_rotate_from_left(&before, node, child_idx as int, depth, lo, hi);
    }
    true
}

/// This handles the case where a child of `node` has underflowed and we
/// are trying to fix it by moving a key from its right sibling.
///
/// This moves a key from `node` into the underflowed child to fix it, and
/// moves a key from its right sibling to fill the gap in `node` (a
/// three-way rotation). Below inner nodes the sibling's first child moves
/// over with it. Nothing is done, and `false` returned, when there is no
/// right sibling or it has no key to spare.
#[verifier::rlimit(30)]
pub(crate) fn rotate_from_right<V>(
    node: &mut Node<V>,
    child_idx: usize,
    Ghost(depth): Ghost<nat>,
    Ghost(lo): Ghost<int>,
    Ghost(hi): Ghost<int>,
) -> (rotated: bool)
    requires
        depth > 0,
        old(node).shape(depth, lo, hi, child_idx as int),
        child_idx < old(node).children@.len(),
        old(node).children@[child_idx as int].keys().len() < MIN_KEYS,
    ensures
        rotated == (child_idx < old(node).keys().len() && old(node).children@[child_idx
            + 1].keys().len() > MIN_KEYS),
        rotated ==> final(node).wf(depth, lo, hi),
        rotated ==> final(node).keys().len() == old(node).keys().len(),
        rotated ==> forall|k: u64| #[trigger] final(node).lookup(k) == old(node).lookup(k),
        !rotated ==> *final(node) == *old(node),
{
    if child_idx >= keys_len(&node.keys) {
        // No right sibling exists
        return false;
    }
    let ghost before = *node;
    proof {
        assert(before.children@[child_idx + 1].wf(
            (depth - 1) as nat,
            before.lower(child_idx + 1, lo),
            before.upper(child_idx + 1, hi),
        ));
        assert(before.children@[child_idx as int].wf(
            (depth - 1) as nat,
            before.lower(child_idx as int, lo),
            before.upper(child_idx as int, hi),
        ));
    }
    if keys_len(&node.children[child_idx + 1].keys) <= MIN_KEYS {
        // Right sibling has no key to spare
        return false;
    }
    let right_sibling = &mut node.children[child_idx + 1];
    let right_key = keys_remove(&mut right_sibling.keys, 0);
    let right_value = right_sibling.values.remove(0);
    let right_child = if right_sibling.children.len() > 0 {
        Some(right_sibling.children.remove(0))
    } else {
        None
    };

    let node_key = keys_get(&node.keys, child_idx);
    keys_set(&mut node.keys, child_idx, right_key);
    node.values.push(right_value);
    let node_value = node.values.swap_remove(child_idx);

    let child = &mut node.children[child_idx];
    keys_push(&mut child.keys, node_key);
    child.values.push(node_value);
    match right_child {
        Some(moved) => {
            child.children.push(moved);
        },
        None => {},
    }
    proof {
        assert(node.values@ =~= before.values@.update(
            child_idx as int,
            before.children@[child_idx + 1].values@[0],
        ));
        assert(node.children@ =~= before.children@.update(
            child_idx as int,
            node.children@[child_idx as int],
        ).update(child_idx + 1, node.children@[child_idx + 1]));
        lemma_rotate_from_right(&before, node, child_idx as int, depth, lo, hi);
    }
    true
}

/// This handles the case where a child of `node` has underflowed and we
/// cannot fix it by rotating from either sibling, because the siblings
/// have no key to spare.
///
/// This merges the underflowed child with a sibling and a key from `node`,
/// producing one node with a sufficient number of keys: with its left
/// sibling if it has one, else with its right sibling. This risks
/// underflowing `node`, which loses a key.
pub(crate) fn merge_with_sibling<V>(
    node: &mut Node<V>,
    child_idx: usize,
    Ghost(depth): Ghost<nat>,
    Ghost(lo): Ghost<int>,
    Ghost(hi): Ghost<int>,
)
    requires
        depth > 0,
        old(node).shape(depth, lo, hi, child_idx as int),
        child_idx < old(node).children@.len(),
        old(node).keys().len() >= 1,
        old(node).children@[child_idx as int].keys().len() < MIN_KEYS,
        child_idx > 0 ==> old(node).children@[child_idx - 1].keys().len() <= MIN_KEYS,
        child_idx == 0 ==> old(node).children@[1].keys().len() <= MIN_KEYS,
    ensures
        final(node).wf(depth, lo, hi),
        final(node).keys().len() + 1 == old(node).keys().len(),
        forall|k: u64| #[trigger] final(node).lookup(k) == old(node).lookup(k),
{
    // The underflowed child goes into its left sibling; without a left
    // sibling, the right sibling goes into the underflowed child
    let left_idx = if child_idx > 0 {
        child_idx - 1
    } else {
        child_idx
    };
    merge_children(node, left_idx, Ghost(depth), Ghost(lo), Ghost(hi), Ghost(child_idx as int));
}

/// Fuses child `left_idx`, the pair that separates it from its right
/// sibling, and that sibling into one child.
pub(crate) fn merge_children<V>(
    node: &mut Node<V>,
    left_idx: usize,
    Ghost(depth): Ghost<nat>,
    Ghost(lo): Ghost<int>,
    Ghost(hi): Ghost<int>,
    Ghost(weak): Ghost<int>,
)
    requires
        depth > 0,
        old(node).shape(depth, lo, hi, weak),
        left_idx < old(node).keys().len(),
        weak == left_idx || weak == left_idx + 1,
        old(node).children@[left_idx as int].keys().len() + old(node).children@[left_idx
            + 1].keys().len() + 1 <= ORDER,
    ensures
        final(node).wf(depth, lo, hi),
        final(node).keys().len() + 1 == old(node).keys().len(),
        forall|k: u64| #[trigger] final(node).lookup(k) == old(node).lookup(k),
{
    let ghost before = *node;
    proof {
        assert(before.children@[left_idx as int].wf(
            (depth - 1) as nat,
            before.lower(left_idx as int, lo),
            before.upper(left_idx as int, hi),
        ));
        assert(before.children@[left_idx + 1].wf(
            (depth - 1) as nat,
            before.lower(left_idx + 1, lo),
            before.upper(left_idx + 1, hi),
        ));
    }
    let mut right = node.children.remove(left_idx + 1);
    let node_key = keys_remove(&mut node.keys, left_idx);
    let node_value = node.values.remove(left_idx);

    let left = &mut node.children[left_idx];
    keys_push(&mut left.keys, node_key);
    left.values.push(node_value);
    keys_append(&mut left.keys, &right.keys);
    left.values.append(&mut right.values);
    left.children.append(&mut right.children);
    proof {
        assert(node.children@ =~= before.children@.remove(left_idx + 1).update(
            left_idx as int,
            node.children@[left_idx as int],
        ));
        assert(merged_at(&before, node, left_idx as int));
        lemma_merge_shape(&before, node, left_idx as int, depth, lo, hi, weak);
        lemma_merge_lookup(&before, node, left_idx as int, depth, lo, hi, weak);
    }
}

/// Restores child `child_idx` of `node`, which has one key less than
/// `MIN_KEYS`: by a rotation from its left sibling, else by a rotation
/// from its right sibling, else by a merge with a sibling.
pub(crate) fn rebalance<V>(
    node: &mut Node<V>,
    child_idx: usize,
    Ghost(depth): Ghost<nat>,
    Ghost(lo): Ghost<int>,
    Ghost(hi): Ghost<int>,
)
    requires
        depth > 0,
        old(node).shape(depth, lo, hi, child_idx as int),
        child_idx < old(node).children@.len(),
        old(node).keys().len() >= 1,
        old(node).children@[child_idx as int].keys().len() < MIN_KEYS,
    ensures
        final(node).wf(depth, lo, hi),
        lost_at_most_one(old(node), final(node)),
        forall|k: u64| #[trigger] final(node).lookup(k) == old(node).lookup(k),
{
    if rotate_from_left(node, child_idx, Ghost(depth), Ghost(lo), Ghost(hi)) {
        return ;
    }
    if rotate_from_right(node, child_idx, Ghost(depth), Ghost(lo), Ghost(hi)) {
        return ;
    }
    merge_with_sibling(node, child_idx, Ghost(depth), Ghost(lo), Ghost(hi));
}

/// A node all of whose children have at least `MIN_KEYS` keys is
/// well-formed, whichever child was allowed to have less.
pub proof fn lemma_not_weak<V>(node: &Node<V>, depth: nat, lo: int, hi: int, weak: int)
    requires
        node.shape(depth, lo, hi, weak),
        0 <= weak < node.children@.len() ==> node.children@[weak].keys().len() >= MIN_KEYS,
    ensures
        node.wf(depth, lo, hi),
{
    if depth > 0 {
        assert forall|i: int| 0 <= i < node.children@.len() implies {
            &&& (#[trigger] node.children@[i]).wf(
                (depth - 1) as nat,
                lower_of(node.keys(), i, lo),
                upper_of(node.keys(), i, hi),
            )
            &&& node.children@[i].keys().len() >= MIN_KEYS
        } by {}
    }
}

/// Takes the largest key out of the subtree of `node` and returns it with
/// its value. A child that underflows on the way is restored.
#[verifier::rlimit(30)]
pub(crate) fn remove_max<V>(
    node: &mut Node<V>,
    Ghost(depth): Ghost<nat>,
    Ghost(lo): Ghost<int>,
    Ghost(hi): Ghost<int>,
) -> (r: (u64, V))
    requires
        old(node).wf(depth, lo, hi),
        old(node).keys().len() >= 1,
    ensures
        lo < r.0 < hi,
        final(node).wf(depth, lo, r.0 as int),
        old(node).lookup(r.0) == Some(r.1),
        forall|k: u64| #[trigger] final(node).lookup(k) == without(old(node).lookup(k), k, r.0),
        lost_at_most_one(old(node), final(node)),
    decreases depth,
{
    let ghost before = *node;
    let ghost keys = before.keys();
    let ghost n = keys.len() as int;
    if node.is_leaf() {
        let k = keys_pop(&mut node.keys).unwrap();
        let v = node.values.pop().unwrap();
        proof {
            assert(before.children@ =~= Seq::<Node<V>>::empty());
            assert(node.children@ =~= Seq::<Node<V>>::empty());
            lemma_remove_from_leaf(keys, before.values@, n - 1, lo, hi);
            assert(node.keys() =~= keys.remove(n - 1));
            assert(node.values@ =~= before.values@.remove(n - 1));
            assert forall|i: int| 0 <= i < node.keys().len() implies #[trigger] node.keys()[i]
                < k by {
                assert(keys[i] < keys[n - 1]);
            }
            lemma_tighten_hi(node, depth, lo, hi, k as int, -1);
            assert forall|x: u64| #[trigger]
                node.lookup(x) == without(before.lookup(x), x, k) by {
                assert(node.lookup(x) == lookup_in(
                    keys.remove(n - 1),
                    before.values@.remove(n - 1),
                    Seq::<Node<V>>::empty(),
                    x,
                ));
            }
        }
        (k, v)
    } else {
        let last = node.children.len() - 1;
        let ghost child_lo = before.lower(n, lo);
        proof {
            assert(before.children@[n].wf((depth - 1) as nat, child_lo, hi));
        }
        let child = &mut node.children[last];
        let (k, v) = remove_max(child, Ghost((depth - 1) as nat), Ghost(child_lo), Ghost(hi));
        proof {
            let after_child = node.children@[n];
            lemma_widen(&after_child, (depth - 1) as nat, child_lo, k as int, child_lo, hi, -1);
            lemma_between(keys, n, k);
            assert(node.children@ =~= before.children@.update(n, after_child));
            lemma_remove_in_child(&before, node, n, k, depth, lo, hi);
            lemma_lookup_cases(keys, before.values@, before.children@, k, n);
            assert forall|i: int| 0 <= i < node.keys().len() implies #[trigger] node.keys()[i]
                < k by {
                if i < n - 1 {
                    assert(keys[i] < keys[n - 1]);
                }
            }
            lemma_tighten_hi(node, depth, lo, hi, k as int, n);
        }
        let ghost mid = *node;
        if keys_len(&node.children[last].keys) < MIN_KEYS {
            rebalance(node, last, Ghost(depth), Ghost(lo), Ghost(k as int));
            proof {
                assert forall|x: u64| #[trigger]
                    node.lookup(x) == without(before.lookup(x), x, k) by {
                    assert(node.lookup(x) == mid.lookup(x));
                }
            }
        } else {
            proof {
                lemma_not_weak(node, depth, lo, k as int, n);
            }
        }
        (k, v)
    }
}

/// Takes the smallest key out of the subtree of `node` and returns it
/// with its value. A child that underflows on the way is restored.
#[verifier::rlimit(30)]
pub(crate) fn remove_min<V>(
    node: &mut Node<V>,
    Ghost(depth): Ghost<nat>,
    Ghost(lo): Ghost<int>,
    Ghost(hi): Ghost<int>,
) -> (r: (u64, V))
    requires
        old(node).wf(depth, lo, hi),
        old(node).keys().len() >= 1,
    ensures
        lo < r.0 < hi,
        final(node).wf(depth, r.0 as int, hi),
        old(node).lookup(r.0) == Some(r.1),
        forall|k: u64| #[trigger] final(node).lookup(k) == without(old(node).lookup(k), k, r.0),
        lost_at_most_one(old(node), final(node)),
    decreases depth,
{
    let ghost before = *node;
    let ghost keys = before.keys();
    if node.is_leaf() {
        let k = keys_remove(&mut node.keys, 0);
        let v = node.values.remove(0);
        proof {
            assert(before.children@ =~= Seq::<Node<V>>::empty());
            assert(node.children@ =~= Seq::<Node<V>>::empty());
            lemma_remove_from_leaf(keys, before.values@, 0, lo, hi);
            assert forall|i: int| 0 <= i < node.keys().len() implies k < #[trigger] node.keys()[i] by {
                assert(keys[0] < keys[i + 1]);
            }
            lemma_tighten_lo(node, depth, lo, hi, k as int, -1);
            assert forall|x: u64| #[trigger]
                node.lookup(x) == without(before.lookup(x), x, k) by {
                assert(node.lookup(x) == lookup_in(
                    keys.remove(0),
                    before.values@.remove(0),
                    Seq::<Node<V>>::empty(),
                    x,
                ));
            }
        }
        (k, v)
    } else {
        let ghost child_hi = before.upper(0, hi);
        proof {
            assert(before.children@[0].wf((depth - 1) as nat, lo, child_hi));
        }
        let child = &mut node.children[0];
        let (k, v) = remove_min(child, Ghost((depth - 1) as nat), Ghost(lo), Ghost(child_hi));
        proof {
            let after_child = node.children@[0];
            lemma_widen(&after_child, (depth - 1) as nat, k as int, child_hi, lo, child_hi, -1);
            lemma_between(keys, 0, k);
            assert(node.children@ =~= before.children@.update(0, after_child));
            lemma_remove_in_child(&before, node, 0, k, depth, lo, hi);
            lemma_lookup_cases(keys, before.values@, before.children@, k, 0);
            assert forall|i: int| 0 <= i < node.keys().len() implies k < #[trigger] node.keys()[i] by {
                if i > 0 {
                    assert(keys[0] < keys[i]);
                }
            }
            lemma_tighten_lo(node, depth, lo, hi, k as int, 0);
        }
        let ghost mid = *node;
        if keys_len(&node.children[0].keys) < MIN_KEYS {
            rebalance(node, 0, Ghost(depth), Ghost(k as int), Ghost(hi));
            proof {
                assert forall|x: u64| #[trigger]
                    node.lookup(x) == without(before.lookup(x), x, k) by {
                    assert(node.lookup(x) == mid.lookup(x));
                }
            }
        } else {
            proof {
                lemma_not_weak(node, depth, k as int, hi, 0);
            }
        }
        (k, v)
    }
}

/// This handles the case where we want to remove the key at `idx` from
/// `node` and we are trying to replace it with a key from the left child
/// of `idx`.
///
/// This checks if the left child has a key to spare. If so, it takes the
/// largest key out of the left child's subtree, puts it in the place of
/// the key at `idx`, and returns the value that was stored under that key.
///
/// This never causes underflows, because `node` keeps its size and the
/// left child had a key to spare.
pub(crate) fn replace_from_left<V>(
    node: &mut Node<V>,
    idx: usize,
    Ghost(depth): Ghost<nat>,
    Ghost(lo): Ghost<int>,
    Ghost(hi): Ghost<int>,
) -> (r: Option<V>)
    requires
        depth > 0,
        old(node).wf(depth, lo, hi),
        idx < old(node).keys().len(),
    ensures
        match r {
            Some(v) => {
                &&& old(node).children@[idx as int].keys().len() > MIN_KEYS
                &&& final(node).wf(depth, lo, hi)
                &&& final(node).keys().len() == old(node).keys().len()
                &&& old(node).lookup(old(node).keys()[idx as int]) == Some(v)
                &&& forall|k: u64| #[trigger]
                    final(node).lookup(k) == without(
                        old(node).lookup(k),
                        k,
                        old(node).keys()[idx as int],
                    )
            },
            None => old(node).children@[idx as int].keys().len() <= MIN_KEYS && *final(node)
                == *old(node),
        },
{
    let ghost before = *node;
    // Proceed only if the left child will not underflow
    if keys_len(&node.children[idx].keys) <= MIN_KEYS {
        return None;
    }
    let ghost child_lo = before.lower(idx as int, lo);
    let ghost child_hi = before.keys()[idx as int] as int;
    proof {
        assert(before.children@[idx as int].wf((depth - 1) as nat, child_lo, child_hi));
    }
    let left_child = &mut node.children[idx];
    let (left_key, left_value) = remove_max(
        left_child,
        Ghost((depth - 1) as nat),
        Ghost(child_lo),
        Ghost(child_hi),
    );
    keys_set(&mut node.keys, idx, left_key);
    node.values.push(left_value);
    let removed_value = node.values.swap_remove(idx);
    proof {
        assert(node.values@ =~= before.values@.update(idx as int, left_value));
        assert(node.children@ =~= before.children@.update(idx as int, node.children@[idx as int]));
        lemma_replace_from_left(&before, node, idx as int, depth, lo, hi);
    }
    Some(removed_value)
}

/// This handles the case where we want to remove the key at `idx` from
/// `node` and we are trying to replace it with a key from the right child
/// of `idx`.
///
/// This checks if the right child has a key to spare. If so, it takes the
/// smallest key out of the right child's subtree, puts it in the place of
/// the key at `idx`, and returns the value that was stored under that key.
///
/// This never causes underflows, because `node` keeps its size and the
/// right child had a key to spare.
pub(crate) fn replace_from_right<V>(
    node: &mut Node<V>,
    idx: usize,
    Ghost(depth): Ghost<nat>,
    Ghost(lo): Ghost<int>,
    Ghost(hi): Ghost<int>,
) -> (r: Option<V>)
    requires
        depth > 0,
        old(node).wf(depth, lo, hi),
        idx < old(node).keys().len(),
    ensures
        match r {
            Some(v) => {
                &&& old(node).children@[idx + 1].keys().len() > MIN_KEYS
                &&& final(node).wf(depth, lo, hi)
                &&& final(node).keys().len() == old(node).keys().len()
                &&& old(node).lookup(old(node).keys()[idx as int]) == Some(v)
                &&& forall|k: u64| #[trigger]
                    final(node).lookup(k) == without(
                        old(node).lookup(k),
                        k,
                        old(node).keys()[idx as int],
                    )
            },
            None => old(node).children@[idx + 1].keys().len() <= MIN_KEYS && *final(node) == *old(node),
        },
{
    let ghost before = *node;
    // Proceed only if the right child will not underflow
    if keys_len(&node.children[idx + 1].keys) <= MIN_KEYS {
        return None;
    }
    let ghost child_lo = before.keys()[idx as int] as int;
    let ghost child_hi = before.upper(idx + 1, hi);
    proof {
        assert(before.children@[idx + 1].wf((depth - 1) as nat, child_lo, child_hi));
    }
    let right_child = &mut node.children[idx + 1];
    let (right_key, right_value) = remove_min(
        right_child,
        Ghost((depth - 1) as nat),
        Ghost(child_lo),
        Ghost(child_hi),
    );
    keys_set(&mut node.keys, idx, right_key);
    node.values.push(right_value);
    let removed_value = node.values.swap_remove(idx);
    proof {
        assert(node.values@ =~= before.values@.update(idx as int, right_value));
        assert(node.children@ =~= before.children@.update(idx + 1, node.children@[idx + 1]));
        lemma_replace_from_right(&before, node, idx as int, depth, lo, hi);
    }
    Some(removed_value)
}

/// This handles the case where we want to remove the key at `idx` from
/// `node` and neither child beside it has a key to spare.
///
/// The key's place is taken by the largest key of the left child's
/// subtree. If that leaves the left child with too few keys, the left
/// child, the key that took the place and the right child are fused into
/// one child, so that `node` loses a key: below a node whose children are
/// leaves this always happens, and comes to removing the key in place and
/// joining the two leaves beside it.
pub(crate) fn remove_in_place<V>(
    node: &mut Node<V>,
    idx: usize,
    Ghost(depth): Ghost<nat>,
    Ghost(lo): Ghost<int>,
    Ghost(hi): Ghost<int>,
) -> (r: V)
    requires
        depth > 0,
        old(node).wf(depth, lo, hi),
        idx < old(node).keys().len(),
        old(node).children@[idx as int].keys().len() <= MIN_KEYS,
        old(node).children@[idx + 1].keys().len() <= MIN_KEYS,
    ensures
        final(node).wf(depth, lo, hi),
        lost_at_most_one(old(node), final(node)),
        old(node).lookup(old(node).keys()[idx as int]) == Some(r),
        forall|k: u64| #[trigger]
            final(node).lookup(k) == without(old(node).lookup(k), k, old(node).keys()[idx as int]),
{
    let ghost before = *node;
    let ghost child_lo = before.lower(idx as int, lo);
    let ghost child_hi = before.keys()[idx as int] as int;
    proof {
        assert(before.children@[idx as int].wf((depth - 1) as nat, child_lo, child_hi));
        assert(before.children@[idx + 1].wf(
            (depth - 1) as nat,
            before.lower(idx + 1, lo),
            before.upper(idx + 1, hi),
        ));
    }
    let left_child = &mut node.children[idx];
    let (left_key, left_value) = remove_max(
        left_child,
        Ghost((depth - 1) as nat),
        Ghost(child_lo),
        Ghost(child_hi),
    );
    keys_set(&mut node.keys, idx, left_key);
    node.values.push(left_value);
    let removed_value = node.values.swap_remove(idx);
    proof {
        assert(node.values@ =~= before.values@.update(idx as int, left_value));
        assert(node.children@ =~= before.children@.update(idx as int, node.children@[idx as int]));
        lemma_replace_from_left(&before, node, idx as int, depth, lo, hi);
    }
    if keys_len(&node.children[idx].keys) < MIN_KEYS {
        merge_children(node, idx, Ghost(depth), Ghost(lo), Ghost(hi), Ghost(idx as int));
    }
    removed_value
}

/// Recursive B-tree remove operation.
///
/// Takes `key` out of the subtree of `node` and returns the value that was
/// stored under it, together with whether `node` was left with fewer than
/// `MIN_KEYS` keys, which the caller has to mend. Returns `None` if the
/// subtree does not hold the key.
#[verifier::rlimit(30)]
pub(crate) fn remove_recursive<V>(
    node: &mut Node<V>,
    key: u64,
    Ghost(depth): Ghost<nat>,
    Ghost(lo): Ghost<int>,
    Ghost(hi): Ghost<int>,
) -> (r: Option<RemovalInfo<V>>)
    requires
        old(node).wf(depth, lo, hi),
        depth > 0 ==> old(node).keys().len() >= 1,
    ensures
        final(node).wf(depth, lo, hi),
        forall|k: u64| #[trigger] final(node).lookup(k) == without(old(node).lookup(k), k, key),
        match r {
            Some(info) => {
                &&& old(node).lookup(key) == Some(info.value)
                &&& lost_at_most_one(old(node), final(node))
                &&& info.underflow ==> final(node).keys().len() < MIN_KEYS
                &&& !info.underflow ==> (final(node).keys().len() >= MIN_KEYS || final(node).keys().len() == old(node).keys().len())
            },
            None => old(node).lookup(key).is_none() && final(node).keys().len() == old(node).keys().len(),
        },
    decreases depth,
{
    let ghost before = *node;
    match keys_search(&node.keys, key) {
        // Key found
        Ok(idx) => {
            proof {
                lemma_position_unique(before.keys(), key, idx as int);
            }
            if node.is_leaf() {
                // Key found in leaf node, simply remove the key and check for underflow
                keys_remove(&mut node.keys, idx);
                let value = node.values.remove(idx);
                proof {
                    assert(before.children@ =~= Seq::<Node<V>>::empty());
                    assert(node.children@ =~= Seq::<Node<V>>::empty());
                    lemma_remove_from_leaf(before.keys(), before.values@, idx as int, lo, hi);
                    assert forall|x: u64| #[trigger]
                        node.lookup(x) == without(before.lookup(x), x, key) by {
                        assert(node.lookup(x) == lookup_in(
                            before.keys().remove(idx as int),
                            before.values@.remove(idx as int),
                            Seq::<Node<V>>::empty(),
                            x,
                        ));
                    }
                }
                Some(RemovalInfo { value, underflow: keys_len(&node.keys) < MIN_KEYS })
            } else {
                // Key found in internal node
                // Try removing the key and replacing from left child
                match replace_from_left(node, idx, Ghost(depth), Ghost(lo), Ghost(hi)) {
                    Some(value) => {
                        return Some(RemovalInfo { value, underflow: false });
                    },
                    None => {},
                }
                // Try removing the key and replacing from right child
                match replace_from_right(node, idx, Ghost(depth), Ghost(lo), Ghost(hi)) {
                    Some(value) => {
                        return Some(RemovalInfo { value, underflow: false });
                    },
                    None => {},
                }
                // Else, no choice but to remove and risk an underflow, caller will handle fixing it
                let value = remove_in_place(node, idx, Ghost(depth), Ghost(lo), Ghost(hi));
                Some(RemovalInfo { value, underflow: keys_len(&node.keys) < MIN_KEYS })
            }
        },
        // Key not found
        Err(child_idx) => {
            proof {
                lemma_slot_unique(before.keys(), key, child_idx as int);
            }
            // Recurse down to child node if it exists
            if child_idx >= node.children.len() {
                proof {
                    assert forall|k: u64| #[trigger]
                        node.lookup(k) == without(before.lookup(k), k, key) by {}
                }
                return None;
            }
            let ghost child_lo = before.lower(child_idx as int, lo);
            let ghost child_hi = before.upper(child_idx as int, hi);
            proof {
                assert(before.children@[child_idx as int].wf(
                    (depth - 1) as nat,
                    child_lo,
                    child_hi,
                ));
            }
            let child = &mut node.children[child_idx];
            let removal_info = remove_recursive(
                child,
                key,
                Ghost((depth - 1) as nat),
                Ghost(child_lo),
                Ghost(child_hi),
            );
            proof {
                assert(node.children@ =~= before.children@.update(
                    child_idx as int,
                    node.children@[child_idx as int],
                ));
                lemma_remove_in_child(&before, node, child_idx as int, key, depth, lo, hi);
                lemma_lookup_cases(
                    before.keys(),
                    before.values@,
                    before.children@,
                    key,
                    child_idx as int,
                );
            }
            let ghost mid = *node;
            match removal_info {
                // Key removed from child node, rebalance if necessary
                Some(removal_info) => {
                    if removal_info.underflow {
                        if rotate_from_left(node, child_idx, Ghost(depth), Ghost(lo), Ghost(hi)) {
                            proof {
                                assert forall|x: u64| #[trigger]
                                    node.lookup(x) == without(before.lookup(x), x, key) by {
                                    assert(node.lookup(x) == mid.lookup(x));
                                }
                            }
                            return Some(
                                RemovalInfo { value: removal_info.value, underflow: false },
                            );
                        }
                        if rotate_from_right(node, child_idx, Ghost(depth), Ghost(lo), Ghost(hi)) {
                            proof {
                                assert forall|x: u64| #[trigger]
                                    node.lookup(x) == without(before.lookup(x), x, key) by {
                                    assert(node.lookup(x) == mid.lookup(x));
                                }
                            }
                            return Some(
                                RemovalInfo { value: removal_info.value, underflow: false },
                            );
                        }
                        merge_with_sibling(node, child_idx, Ghost(depth), Ghost(lo), Ghost(hi));
                        proof {
                            assert forall|x: u64| #[trigger]
                                node.lookup(x) == without(before.lookup(x), x, key) by {
                                assert(node.lookup(x) == mid.lookup(x));
                            }
                        }
                        return Some(
                            RemovalInfo {
                                value: removal_info.value,
                                underflow: keys_len(&node.keys) < MIN_KEYS,
                            },
                        );
                    }
                    Some(RemovalInfo { value: removal_info.value, underflow: false })
                },
                // Key not found in entire child tree
                None => None,
            }
        },
    }
}

} // verus!
