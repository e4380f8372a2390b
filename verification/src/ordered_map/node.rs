//! The nodes of the B-tree, what it means for a subtree to be well-formed,
//! and what a subtree maps a key to.

use super::keys::{key_seq, keys_new};
use arrayvec::ArrayVec;
use vstd::prelude::*;

verus! {

/// Maximum number of keys in a node.
pub const ORDER: usize = 8;

/// Minimum number of keys in a node other than the root.
pub const MIN_KEYS: usize = 4;

/// A bound below every key.
pub open spec fn below_all() -> int {
    -1
}

/// A bound above every key.
pub open spec fn above_all() -> int {
    0x1_0000_0000_0000_0000
}

/// Whether each element of `s` is smaller than all later ones.
pub open spec fn strictly_ascending(s: Seq<u64>) -> bool {
    forall|i: int, j: int| 0 <= i < j < s.len() ==> s[i] < s[j]
}

/// Whether `i` is the position at which the absent key `k` would have to be
/// inserted into `keys`: every key before it is smaller, every key from it
/// on is larger.
pub open spec fn is_slot(keys: Seq<u64>, k: u64, i: int) -> bool {
    &&& 0 <= i <= keys.len()
    &&& forall|j: int| 0 <= j < i ==> keys[j] < k
    &&& forall|j: int| i <= j < keys.len() ==> k < keys[j]
}

/// A node of the B-tree. A leaf has no children; an inner node has one
/// child more than it has keys.
pub struct Node<V> {
    pub keys: ArrayVec<u64, 8>,
    pub values: Vec<V>,
    pub children: Vec<Node<V>>,
}

/// Lower bound of the keys in child `i` of a node with keys `keys`, where
/// `lo` bounds the node.
pub open spec fn lower_of(keys: Seq<u64>, i: int, lo: int) -> int {
    if i == 0 {
        lo
    } else {
        keys[i - 1] as int
    }
}

/// Upper bound of the keys in child `i` of a node with keys `keys`, where
/// `hi` bounds the node.
pub open spec fn upper_of(keys: Seq<u64>, i: int, hi: int) -> int {
    if i == keys.len() {
        hi
    } else {
        keys[i] as int
    }
}

/// Keys, values and children make up a B-tree whose leaves are `depth`
/// levels below its top node and whose keys lie strictly between `lo` and
/// `hi`:
/// - there are as many values as keys;
/// - the keys are strictly ascending;
/// - child `i` is a B-tree of at most `ORDER` keys per node, and its keys
///   lie between key `i - 1` and key `i`;
/// - every child has at least `MIN_KEYS` keys, but for child `weak`, which
///   may have one less.
pub open spec fn shape_of<V>(
    keys: Seq<u64>,
    values: Seq<V>,
    children: Seq<Node<V>>,
    depth: nat,
    lo: int,
    hi: int,
    weak: int,
) -> bool
    decreases depth, 0nat,
{
    &&& values.len() == keys.len()
    &&& strictly_ascending(keys)
    &&& forall|i: int| 0 <= i < keys.len() ==> lo < #[trigger] keys[i] < hi
    &&& if depth == 0 {
        children.len() == 0
    } else {
        &&& children.len() == keys.len() + 1
        &&& forall|i: int|
            0 <= i < children.len() ==> {
                &&& (#[trigger] children[i]).wf(
                    (depth - 1) as nat,
                    lower_of(keys, i, lo),
                    upper_of(keys, i, hi),
                )
                &&& children[i].keys().len() + (if i == weak {
                    1nat
                } else {
                    0nat
                }) >= MIN_KEYS
            }
    }
}

/// The value that keys, values and children hold for `k`, if they hold one.
pub open spec fn lookup_in<V>(keys: Seq<u64>, values: Seq<V>, children: Seq<Node<V>>, k: u64) -> Option<V>
    decreases children,
{
    if keys.contains(k) {
        Some(values[keys.index_of(k)])
    } else if children.len() == 0 {
        None
    } else {
        let c = choose|i: int| is_slot(keys, k, i);
        if 0 <= c < children.len() {
            children[c].lookup(k)
        } else {
            None
        }
    }
}

impl<V> Node<V> {
    /// The node's own keys, in order.
    pub open spec fn keys(&self) -> Seq<u64> {
        key_seq(self.keys)
    }

    /// Lower bound of the keys in child `i`, where `lo` bounds the node.
    pub open spec fn lower(&self, i: int, lo: int) -> int {
        lower_of(self.keys(), i, lo)
    }

    /// Upper bound of the keys in child `i`, where `hi` bounds the node.
    pub open spec fn upper(&self, i: int, hi: int) -> int {
        upper_of(self.keys(), i, hi)
    }

    /// The subtree is a B-tree of the given depth and bounds with at most
    /// `ORDER` keys in each node, in which every child of this node has
    /// at least `MIN_KEYS` keys, but for child `weak`, which may have one
    /// less.
    pub open spec fn shape(&self, depth: nat, lo: int, hi: int, weak: int) -> bool
        decreases depth, 1nat,
    {
        &&& self.keys().len() <= ORDER
        &&& shape_of(self.keys(), self.values@, self.children@, depth, lo, hi, weak)
    }

    /// The subtree is a B-tree of the given depth and bounds in which every
    /// node has at most `ORDER` keys and every node below this one has at
    /// least `MIN_KEYS` keys.
    pub open spec fn wf(&self, depth: nat, lo: int, hi: int) -> bool
        decreases depth, 2nat,
    {
        self.shape(depth, lo, hi, -1)
    }

    /// The position at which the absent key `k` would be inserted among
    /// the node's keys, which is also the child that may hold `k`.
    pub open spec fn slot(&self, k: u64) -> int {
        choose|i: int| is_slot(self.keys(), k, i)
    }

    /// The value that the subtree holds for `k`, if it holds one.
    pub open spec fn lookup(&self, k: u64) -> Option<V>
        decreases self,
    {
        lookup_in(self.keys(), self.values@, self.children@, k)
    }

    /// The node that is reached from this one by going, at each step of
    /// `path`, to the child at that position.
    pub open spec fn descend(&self, path: Seq<usize>) -> Option<Node<V>>
        decreases path.len(),
    {
        if path.len() == 0 {
            Some(*self)
        } else if path[0] < self.children@.len() {
            self.children@[path[0] as int].descend(path.skip(1))
        } else {
            None
        }
    }

    /// The subtree as a map from keys to values.
    pub open spec fn view(&self) -> Map<u64, V> {
        Map::new(|k: u64| self.lookup(k).is_some(), |k: u64| self.lookup(k).unwrap())
    }

    /// A leaf without keys.
    pub fn new() -> (node: Self)
        ensures
            node.keys() == Seq::<u64>::empty(),
            node.values@ == Seq::<V>::empty(),
            node.children@ == Seq::<Node<V>>::empty(),
            forall|lo: int, hi: int| node.wf(0, lo, hi),
            forall|k: u64| node.lookup(k).is_none(),
    {
        let node = Node { keys: keys_new(), values: Vec::new(), children: Vec::new() };
        assert forall|k: u64| node.lookup(k).is_none() by {
            assert(!node.keys().contains(k));
        }
        node
    }

    /// Whether the node has no children.
    pub fn is_leaf(&self) -> (r: bool)
        ensures
            r == (self.children@.len() == 0),
    {
        self.children.len() == 0
    }
}

/// The insertion position of an absent key is unique.
pub proof fn lemma_slot_unique(keys: Seq<u64>, k: u64, i: int)
    requires
        is_slot(keys, k, i),
    ensures
        (choose|c: int| is_slot(keys, k, c)) == i,
        !keys.contains(k),
{
    let c = choose|c: int| is_slot(keys, k, c);
    if c < i {
        assert(keys[c] < k);
    } else if c > i {
        assert(keys[i] < k);
    }
    if keys.contains(k) {
        let j = keys.index_of(k);
        assert(keys[j] == k);
    }
}

/// In strictly ascending keys, each key stands at one position only.
pub proof fn lemma_position_unique(keys: Seq<u64>, k: u64, i: int)
    requires
        strictly_ascending(keys),
        0 <= i < keys.len(),
        keys[i] == k,
    ensures
        keys.contains(k),
        keys.index_of(k) == i,
{
    let j = keys.index_of(k);
    assert(keys[j] == k);
    if j < i {
        assert(keys[j] < keys[i]);
    } else if j > i {
        assert(keys[i] < keys[j]);
    }
}

} // verus!
