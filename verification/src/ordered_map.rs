//! An ordered map with `u64` keys, implemented as a B-tree of order 8.

use vstd::prelude::*;

pub mod insert;
pub mod keys;
pub mod node;
pub mod remove;
pub mod search;

use insert::{insert_recursive, put, route};
use keys::{keys_get, keys_len, keys_push};
use node::{
    above_all, below_all, is_slot, lemma_position_unique, lemma_slot_unique, Node, MIN_KEYS,
};
use remove::{lemma_lookup_cases, remove_recursive, without};
use node::strictly_ascending;
use search::{
    collect_keys, get_mut_recursive, get_nearest_floor_recursive, get_recursive, is_floor_of,
};

verus! {

/// An ordered key-value map with `u64` keys, implemented using a B-tree.
pub struct OrderedMap<V> {
    root: Node<V>,
    depth: Ghost<nat>,
}

impl<V> View for OrderedMap<V> {
    type V = Map<u64, V>;

    /// The map's contents.
    closed spec fn view(&self) -> Map<u64, V> {
        self.root.view()
    }
}

impl<V> OrderedMap<V> {
    /// The root node of the tree.
    pub closed spec fn root(&self) -> Node<V> {
        self.root
    }

    /// Number of levels between the root and the leaves.
    pub closed spec fn depth(&self) -> nat {
        self.depth@
    }

    /// The tree is a B-tree: in every node the keys are strictly
    /// ascending, the keys in child `i` lie between key `i - 1` and key
    /// `i`, every leaf is at the same depth, every node has at most `ORDER`
    /// keys, and every node but the root has at least `MIN_KEYS` keys. A
    /// root that is not a leaf has at least one key.
    pub open spec fn wf(&self) -> bool {
        &&& self.root().wf(self.depth(), below_all(), above_all())
        &&& self.depth() > 0 ==> self.root().keys().len() >= 1
    }

    /// The map's contents are what a search from the root finds.
    pub proof fn lemma_view(&self)
        ensures
            self@ == self.root().view(),
            forall|k: u64| self@.contains_key(k) <==> self.root().lookup(k).is_some(),
            forall|k: u64| self@.contains_key(k) ==> self@[k] == self.root().lookup(k).unwrap(),
    {
    }

    /// An empty map.
    pub fn new() -> (map: Self)
        ensures
            map.wf(),
            map@ == Map::<u64, V>::empty(),
    {
        let map = OrderedMap { root: Node::new(), depth: Ghost(0) };
        proof {
            assert(map@ =~= Map::<u64, V>::empty());
        }
        map
    }

    /// The value stored under `key`, if there is one.
    pub fn get(&self, key: u64) -> (r: Option<&V>)
        requires
            self.wf(),
        ensures
            match r {
                Some(v) => self@.contains_key(key) && self@[key] == *v,
                None => !self@.contains_key(key),
            },
    {
        get_recursive(&self.root, key, Ghost(self.depth@), Ghost(below_all()), Ghost(above_all()))
    }

    /// Returns the key/value pair whose key is closest to the given key
    /// from below, the key itself included.
    ///
    /// Returns `None` if the map has no key at or below the given key.
    pub fn get_nearest_floor(&self, key: u64) -> (r: Option<(u64, &V)>)
        requires
            self.wf(),
        ensures
            match r {
                Some((k, v)) => {
                    &&& k <= key
                    &&& self@.contains_key(k)
                    &&& self@[k] == *v
                    &&& forall|k2: u64| k2 <= key && self@.contains_key(k2) ==> k2 <= k
                },
                None => forall|k2: u64| k2 <= key ==> !self@.contains_key(k2),
            },
    {
        let r = get_nearest_floor_recursive(
            &self.root,
            key,
            None,
            Ghost(self.depth@),
            Ghost(below_all()),
            Ghost(above_all()),
        );
        proof {
            assert(is_floor_of(&self.root, key, r));
            match r {
                Some((k, v)) => {
                    assert forall|k2: u64| k2 <= key && self@.contains_key(k2) implies k2 <= k by {
                        assert(self.root.lookup(k2).is_some());
                    }
                },
                None => {
                    assert forall|k2: u64| k2 <= key implies !self@.contains_key(k2) by {
                        assert(self.root.lookup(k2).is_none());
                    }
                },
            }
        }
        r
    }

    /// Stores `value` under `key`, replacing the value that was stored
    /// under it before, if there was one.
    pub fn insert(&mut self, key: u64, value: V)
        requires
            old(self).wf(),
        ensures
            final(self).wf(),
            final(self)@ == old(self)@.insert(key, value),
    {
        let ghost before = self.root;
        let ghost depth = self.depth@;
        let split_info = insert_recursive(
            &mut self.root,
            key,
            value,
            Ghost(depth),
            Ghost(below_all()),
            Ghost(above_all()),
        );
        // Check if root was split, if so, create a new root node with the
        // promoted key/value, old root as left child and new_node as the right child
        match split_info {
            Some(info) => {
                let mut old_root = Node::new();
                std::mem::swap(&mut self.root, &mut old_root);
                let ghost left = old_root;
                keys_push(&mut self.root.keys, info.promoted_key);
                self.root.values.push(info.promoted_value);
                self.root.children.push(old_root);
                self.root.children.push(info.new_node);
                self.depth = Ghost(depth + 1);
                proof {
                    let pk = info.promoted_key;
                    let keys = self.root.keys();
                    assert(keys =~= seq![pk]);
                    assert(self.root.children@ =~= seq![left, info.new_node]);
                    assert(self.root.values@ =~= seq![info.promoted_value]);
                    assert(self.root.wf(depth + 1, below_all(), above_all()));
                    assert forall|k: u64| #[trigger]
                        self.root.lookup(k) == put(before.lookup(k), k, key, value) by {
                        assert(route(&left, &info, k) == put(before.lookup(k), k, key, value));
                        if k == pk {
                            lemma_position_unique(keys, pk, 0);
                        } else if k < pk {
                            assert(is_slot(keys, k, 0));
                            lemma_slot_unique(keys, k, 0);
                        } else {
                            assert(is_slot(keys, k, 1));
                            lemma_slot_unique(keys, k, 1);
                        }
                    }
                }
            },
            None => {},
        }
        proof {
            assert forall|k: u64| #[trigger]
                self.root.lookup(k) == put(before.lookup(k), k, key, value) by {}
            assert(self@ =~= old(self)@.insert(key, value));
        }
    }

    /// A reference to the value stored under `key`, if there is one,
    /// through which the value can be changed.
    pub fn get_mut(&mut self, key: u64) -> (r: Option<&mut V>)
        requires
            old(self).wf(),
        ensures
            final(self).wf(),
            match r {
                Some(v) => {
                    &&& old(self)@.contains_key(key)
                    &&& old(self)@[key] == *v
                    &&& final(self)@ == old(self)@.insert(key, *final(v))
                },
                None => !old(self)@.contains_key(key) && final(self)@ == old(self)@,
            },
    {
        let ghost before = self.root;
        let ghost depth = self.depth@;
        proof {
            // The map follows the root, whatever the root becomes.
            assert forall|after: Node<V>, value: V|
                #![trigger after.view(), before.view().insert(key, value)]
                (forall|k: u64| #[trigger] after.lookup(k) == put(before.lookup(k), k, key, value))
                    && before.lookup(key).is_some() implies after.view() == before.view().insert(
                    key,
                    value,
                ) by {
                assert(after.view() =~= before.view().insert(key, value));
            }
            assert forall|after: Node<V>|
                (forall|k: u64| #[trigger] after.lookup(k) == before.lookup(k))
                    implies #[trigger] after.view() == before.view() by {
                assert(after.view() =~= before.view());
            }
        }
        get_mut_recursive(
            &mut self.root,
            key,
            Ghost(depth),
            Ghost(below_all()),
            Ghost(above_all()),
        )
    }

    /// Removes `key` from the map and returns the value that was stored
    /// under it, if there was one.
    #[verifier::rlimit(30)]
    pub fn remove(&mut self, key: u64) -> (r: Option<V>)
        requires
            old(self).wf(),
        ensures
            final(self).wf(),
            final(self)@ == old(self)@.remove(key),
            match r {
                Some(v) => old(self)@.contains_key(key) && old(self)@[key] == v,
                None => !old(self)@.contains_key(key),
            },
    {
        let ghost before = self.root;
        let ghost depth = self.depth@;
        let removal_info = remove_recursive(
            &mut self.root,
            key,
            Ghost(depth),
            Ghost(below_all()),
            Ghost(above_all()),
        );
        let ghost mid = self.root;
        proof {
            assert forall|k: u64| #[trigger]
                mid.lookup(k) == without(before.lookup(k), k, key) by {}
        }
        let removal_info = match removal_info {
            Some(info) => info,
            None => {
                proof {
                    assert(self@ =~= old(self)@.remove(key));
                }
                return None;
            },
        };
        if removal_info.underflow && keys_len(&self.root.keys) == 0 {
            if self.root.is_leaf() {
                // Tree becomes empty
                self.root = Node::new();
                self.depth = Ghost(0);
                proof {
                    assert forall|k: u64| #[trigger]
                        self.root.lookup(k) == without(before.lookup(k), k, key) by {
                        assert(mid.lookup(k) == without(before.lookup(k), k, key));
                        assert(!mid.keys().contains(k));
                    }
                }
            } else {
                // Promote the first child as the new root
                let new_root = self.root.children.remove(0);
                self.root = new_root;
                self.depth = Ghost((depth - 1) as nat);
                proof {
                    assert(self.root == mid.children@[0]);
                    assert(mid.children@[0].wf(
                        (depth - 1) as nat,
                        mid.lower(0, below_all()),
                        mid.upper(0, above_all()),
                    ));
                    assert forall|k: u64| #[trigger]
                        self.root.lookup(k) == without(before.lookup(k), k, key) by {
                        assert(mid.lookup(k) == without(before.lookup(k), k, key));
                        assert(is_slot(mid.keys(), k, 0));
                        lemma_lookup_cases(mid.keys(), mid.values@, mid.children@, k, 0);
                    }
                }
            }
        }
        proof {
            assert(self@ =~= old(self)@.remove(key));
        }
        Some(removal_info.value)
    }

    /// The keys of the map, in ascending order.
    pub fn keys(&self) -> (keys: Vec<u64>)
        requires
            self.wf(),
        ensures
            strictly_ascending(keys@),
            forall|k: u64| keys@.contains(k) <==> self@.contains_key(k),
    {
        let mut keys: Vec<u64> = Vec::new();
        collect_keys(
            &self.root,
            &mut keys,
            Ghost(self.depth@),
            Ghost(below_all()),
            Ghost(above_all()),
        );
        proof {
            assert forall|k: u64| keys@.contains(k) <==> self@.contains_key(k) by {
                assert(keys@.contains(k) <==> self.root.lookup(k).is_some());
            }
        }
        keys
    }

    /// The keys of the node that is reached from the root by going, at
    /// each step of `path`, to the child at that position. Returns `None`
    /// if the path leaves the tree.
    pub fn node_keys(&self, path: &Vec<usize>) -> (r: Option<Vec<u64>>)
        ensures
            match r {
                Some(keys) => self.root().descend(path@).is_some() && keys@ == self.root().descend(
                    path@,
                ).unwrap().keys(),
                None => self.root().descend(path@).is_none(),
            },
    {
        let mut node = &self.root;
        let mut i: usize = 0;
        proof {
            assert(path@.skip(0) =~= path@);
        }
        while i < path.len()
            invariant
                i <= path@.len(),
                self.root().descend(path@) == node.descend(path@.skip(i as int)),
            decreases path@.len() - i,
        {
            let step = path[i];
            if step >= node.children.len() {
                return None;
            }
            proof {
                assert(path@.skip(i as int).skip(1) =~= path@.skip(i + 1));
            }
            node = &node.children[step];
            i = i + 1;
        }
        let n = keys_len(&node.keys);
        let mut keys: Vec<u64> = Vec::new();
        let mut j: usize = 0;
        while j < n
            invariant
                n == node.keys().len(),
                j <= n,
                keys@ == node.keys().subrange(0, j as int),
            decreases n - j,
        {
            keys.push(keys_get(&node.keys, j));
            proof {
                assert(keys@ =~= node.keys().subrange(0, j + 1));
            }
            j = j + 1;
        }
        proof {
            assert(node.keys().subrange(0, n as int) =~= node.keys());
            assert(path@.skip(path@.len() as int).len() == 0);
        }
        Some(keys)
    }

    /// Removing a key right after it was inserted, when the map did not
    /// hold it before, gives back the value that was inserted and the map
    /// as it was.
    pub proof fn lemma_remove_undoes_insert(
        before: &OrderedMap<V>,
        mid: &OrderedMap<V>,
        after: &OrderedMap<V>,
        key: u64,
        value: V,
    )
        requires
            !before@.contains_key(key),
            mid@ == before@.insert(key, value),
            after@ == mid@.remove(key),
        ensures
            mid@.contains_key(key),
            mid@[key] == value,
            after@ == before@,
    {
        assert(after@ =~= before@);
    }
}

} // verus!
