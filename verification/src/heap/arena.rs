//! A typed arena: an allocator for values of one type, carved out of one
//! slot of the heap.
//!
//! The slot is divided into nodes, each large enough for a value or for
//! the link of a free list. The free nodes form a list that is used as a
//! stack: at first the nodes are handed out from the start of the slot
//! on, and a node that was freed is handed out again before the others.
//! The metadata word of the slot counts the values in the arena.

use super::chunk::SLOT_SIZE;
use super::pool::{lemma_slot_of_address, slot_base_of};
use super::Heap;
use vstd::layout::size_of;
use vstd::prelude::*;

verus! {

/// Size of a node that holds a value of `value_size` bytes: the size of
/// the value, or of a pointer if that is larger.
pub open spec fn node_size_for(value_size: int) -> int {
    if value_size < 8 {
        8
    } else {
        value_size
    }
}

/// An arena of values of type `T`.
pub struct Arena<T> {
    slot: usize,
    node_size: usize,
    nodes: Vec<Option<T>>,
    freelist: Vec<usize>,
}

impl<T> Arena<T> {
    /// Address of the arena's slot.
    pub closed spec fn slot(&self) -> int {
        self.slot as int
    }

    /// Size of a node in bytes.
    pub closed spec fn node_size(&self) -> int {
        self.node_size as int
    }

    /// What the nodes hold, from the start of the slot on: a value, or
    /// nothing if the node is free.
    pub closed spec fn nodes(&self) -> Seq<Option<T>> {
        self.nodes@
    }

    /// The free list: the positions of the free nodes, the next to be
    /// handed out last.
    pub closed spec fn freelist(&self) -> Seq<usize> {
        self.freelist@
    }

    /// Address of the node at position `idx`.
    pub open spec fn node_addr(&self, idx: int) -> int {
        self.slot() + idx * self.node_size()
    }

    /// Whether `addr` is the address of a node that holds a value.
    pub open spec fn holds(&self, addr: int) -> bool {
        exists|idx: int|
            0 <= idx < self.nodes().len() && #[trigger] self.node_addr(idx) == addr
                && self.nodes()[idx].is_some()
    }

    /// Position of the node at address `addr`.
    pub open spec fn index_of(&self, addr: int) -> int {
        (addr - self.slot()) / self.node_size()
    }

    /// Number of values in the arena.
    pub open spec fn live_count(&self) -> int {
        self.nodes().len() - self.freelist().len()
    }

    /// The arena fits the heap:
    /// - the slot is one that the heap has handed out, and the nodes fill
    ///   it from its start without reaching over its end;
    /// - the free list holds the positions of the nodes without a value,
    ///   each once;
    /// - the slot's metadata word is the number of values in the arena.
    pub open spec fn wf(&self, heap: &Heap) -> bool {
        &&& heap.owns_slot(self.slot() as usize)
        &&& self.slot() + SLOT_SIZE <= usize::MAX
        &&& self.node_size() >= 8
        &&& self.nodes().len() * self.node_size() <= SLOT_SIZE
        &&& self.freelist().no_duplicates()
        &&& forall|i: int|
            0 <= i < self.freelist().len() ==> (#[trigger] self.freelist()[i])
                < self.nodes().len()
        &&& forall|idx: int|
            0 <= idx < self.nodes().len() ==> ((#[trigger] self.nodes()[idx]).is_none()
                <==> self.freelist().contains(idx as usize))
        &&& heap.chunks().metadata_of(self.slot() as usize) == self.live_count()
    }

    /// An arena has at most 512 nodes.
    pub proof fn lemma_node_count(&self)
        requires
            self.node_size() >= 8,
            self.nodes().len() * self.node_size() <= SLOT_SIZE,
        ensures
            self.nodes().len() <= 512,
    {
        let n = self.nodes().len() as int;
        let size = self.node_size();
        assert(n <= 512) by (nonlinear_arith)
            requires
                n * size <= 4096,
                size >= 8,
                n >= 0,
        ;
    }

    /// The nodes lie in the slot, each at an address of its own.
    pub proof fn lemma_node_addrs(&self, idx: int, other: int)
        requires
            self.node_size() >= 8,
            self.nodes().len() * self.node_size() <= SLOT_SIZE,
            0 <= idx < self.nodes().len(),
            0 <= other < self.nodes().len(),
        ensures
            self.slot() <= self.node_addr(idx) <= self.slot() + SLOT_SIZE - self.node_size(),
            self.index_of(self.node_addr(idx)) == idx,
            idx != other ==> self.node_addr(idx) != self.node_addr(other),
    {
        let size = self.node_size();
        let n = self.nodes().len() as int;
        assert(0 <= idx * size <= n * size - size) by (nonlinear_arith)
            requires
                0 <= idx < n,
                size >= 8,
        ;
        assert(size * idx == idx * size) by (nonlinear_arith);
        vstd::arithmetic::div_mod::lemma_fundamental_div_mod_converse(idx * size, size, idx, 0);
        if idx != other {
            assert(idx * size != other * size) by (nonlinear_arith)
                requires
                    idx != other,
                    size >= 8,
            ;
        }
    }

    /// An arena in a fresh slot of the heap, without values. Returns
    /// `None` if the heap has no slot left.
    #[verifier::rlimit(30)]
    pub fn new(heap: &mut Heap) -> (r: Option<Self>)
        requires
            old(heap).wf(),
            size_of::<T>() <= SLOT_SIZE,
        ensures
            final(heap).wf(),
            match r {
                Some(arena) => {
                    &&& arena.wf(final(heap))
                    &&& !old(heap).chunks().owns(arena.slot() as usize)
                    &&& final(heap).chunks().allocated() == old(heap).chunks().allocated().insert(
                        arena.slot() as usize,
                    )
                    &&& arena.node_size() == node_size_for(size_of::<T>() as int)
                    &&& arena.nodes().len() == SLOT_SIZE as int / arena.node_size()
                    &&& arena.live_count() == 0
                    &&& forall|addr: int| !arena.holds(addr)
                    &&& arena.freelist() == Seq::new(
                        arena.nodes().len(),
                        |i: int| (arena.nodes().len() - 1 - i) as usize,
                    )
                },
                None => old(heap).chunks().is_exhausted() && final(heap).chunks().chunks() == old(
                    heap,
                ).chunks().chunks(),
            },
    {
        let slot = match heap.alloc_slot() {
            Some(slot) => slot,
            None => {
                return None;
            },
        };
        let value_size = core::mem::size_of::<T>();
        let node_size = if value_size < 8 {
            8
        } else {
            value_size
        };
        let count = SLOT_SIZE / node_size;
        proof {
            vstd::arithmetic::div_mod::lemma_fundamental_div_mod(
                SLOT_SIZE as int,
                node_size as int,
            );
            assert(count * node_size == node_size * count) by (nonlinear_arith);
            lemma_slot_of_address(slot);
            heap.chunks().lemma_slot_fits(slot);
        }
        let mut nodes: Vec<Option<T>> = Vec::new();
        let mut freelist: Vec<usize> = Vec::new();
        let mut i: usize = 0;
        // Every node is free; the first node is on top of the free list
        while i < count
            invariant
                i <= count,
                nodes@.len() == i,
                freelist@.len() == i,
                forall|k: int| 0 <= k < i ==> (#[trigger] nodes@[k]).is_none(),
                forall|k: int| 0 <= k < i ==> #[trigger] freelist@[k] == count - 1 - k,
            decreases count - i,
        {
            nodes.push(None);
            freelist.push(count - 1 - i);
            i = i + 1;
        }
        let arena = Arena { slot, node_size, nodes, freelist };
        proof {
            assert(arena.freelist() =~= Seq::new(
                arena.nodes().len(),
                |i: int| (arena.nodes().len() - 1 - i) as usize,
            ));
            assert forall|idx: int| 0 <= idx < arena.nodes().len() implies (
            #[trigger] arena.nodes()[idx]).is_none() && arena.freelist().contains(idx as usize) by {
                assert(arena.freelist()[count - 1 - idx] == idx);
            }
        }
        Some(arena)
    }

    /// Puts `value` in a free node and returns the node's address: the
    /// node that was freed last or, if none was freed, the first node that
    /// was not yet handed out. Returns `None`, and drops the value, if the
    /// arena has no free node.
    #[verifier::rlimit(30)]
    pub fn allocate(&mut self, heap: &mut Heap, value: T) -> (r: Option<usize>)
        requires
            old(heap).wf(),
            old(self).wf(old(heap)),
        ensures
            final(heap).wf(),
            final(self).wf(final(heap)),
            final(self).slot() == old(self).slot(),
            final(self).node_size() == old(self).node_size(),
            final(self).nodes().len() == old(self).nodes().len(),
            final(heap).chunks().allocated() == old(heap).chunks().allocated(),
            final(heap).pool() == old(heap).pool(),
            match r {
                Some(addr) => {
                    &&& old(self).freelist().len() > 0
                    &&& addr == old(self).node_addr(old(self).freelist().last() as int)
                    &&& final(self).freelist() == old(self).freelist().drop_last()
                    &&& final(self).nodes() == old(self).nodes().update(
                        old(self).freelist().last() as int,
                        Some(value),
                    )
                    &&& final(self).live_count() == old(self).live_count() + 1
                },
                None => {
                    &&& old(self).freelist().len() == 0
                    &&& final(self).nodes() == old(self).nodes()
                    &&& final(self).freelist() == old(self).freelist()
                    &&& final(heap).chunks().chunks() == old(heap).chunks().chunks()
                },
            },
    {
        let ghost pre = *self;
        // If the free list is empty we have no free nodes left
        let idx = match self.freelist.pop() {
            Some(idx) => idx,
            None => {
                proof {
                    assert(self.freelist() =~= pre.freelist());
                }
                return None;
            },
        };
        proof {
            assert(pre.freelist()[pre.freelist().len() - 1] == idx);
            pre.lemma_node_count();
            pre.lemma_node_addrs(idx as int, idx as int);
            lemma_slot_of_address(self.slot);
            assert(slot_base_of(self.slot as int) == self.slot) by {
                let s = self.slot;
                assert(s % 0x1000 == 0 ==> (s / 0x1000) * 0x1000 == s) by (bit_vector);
            }
        }
        // Increment alloc count
        let raise = |count: u32| -> (r: u32)
            requires
                count < 0xffff_ffff,
            ensures
                r == count + 1,
            {
                let raised: u32 = count + 1;
                raised
            };
        heap.update_slot_metadata(self.slot, raise);
        self.nodes.set(idx, Some(value));
        proof {
            assert forall|i: int, j: int|
                0 <= i < self.freelist().len() && 0 <= j < self.freelist().len() && i
                    != j implies self.freelist()[i] != self.freelist()[j] by {
                assert(pre.freelist()[i] != pre.freelist()[j]);
            }
            assert forall|k: int| 0 <= k < self.nodes().len() implies ((
            #[trigger] self.nodes()[k]).is_none() <==> self.freelist().contains(k as usize)) by {
                if self.freelist().contains(k as usize) {
                    let i = self.freelist().index_of(k as usize);
                    assert(self.freelist()[i] == k);
                    assert(pre.freelist()[i] == k);
                    assert(pre.freelist()[i] != pre.freelist()[pre.freelist().len() - 1]);
                    assert(pre.freelist().contains(k as usize));
                }
                if k != idx && pre.nodes()[k].is_none() {
                    assert(pre.freelist().contains(k as usize));
                    let i = pre.freelist().index_of(k as usize);
                    assert(pre.freelist()[i] == k);
                    assert(self.freelist()[i] == k);
                }
                if k == idx {
                    assert(!self.freelist().contains(k as usize));
                }
            }
        }
        proof {
            assert(heap.owns_slot(self.slot() as usize)) by {
                assert(old(heap).chunks().allocated().contains(self.slot));
                assert(heap.chunks().allocated().contains(self.slot));
            }
            assert forall|i: int| 0 <= i < self.freelist().len() implies (
            #[trigger] self.freelist()[i]) < self.nodes().len() by {
                assert(pre.freelist()[i] < pre.nodes().len());
            }
            assert(self.freelist().no_duplicates());
            assert(heap.chunks().metadata_of(self.slot() as usize) == self.live_count());
        }
        Some(self.slot + idx * self.node_size)
    }

    /// Takes the value out of the node at address `addr`, which holds
    /// one, and puts the node on top of the free list.
    #[verifier::rlimit(30)]
    pub fn free(&mut self, heap: &mut Heap, addr: usize) -> (value: T)
        requires
            old(heap).wf(),
            old(self).wf(old(heap)),
            old(self).holds(addr as int),
        ensures
            final(heap).wf(),
            final(self).wf(final(heap)),
            final(self).slot() == old(self).slot(),
            final(self).node_size() == old(self).node_size(),
            final(heap).chunks().allocated() == old(heap).chunks().allocated(),
            final(heap).pool() == old(heap).pool(),
            Some(value) == old(self).nodes()[old(self).index_of(addr as int)],
            final(self).nodes() == old(self).nodes().update(old(self).index_of(addr as int), None),
            final(self).freelist() == old(self).freelist().push(
                old(self).index_of(addr as int) as usize,
            ),
            final(self).live_count() + 1 == old(self).live_count(),
    {
        let ghost pre = *self;
        proof {
            let witness = choose|idx: int|
                0 <= idx < pre.nodes().len() && #[trigger] pre.node_addr(idx) == addr
                    && pre.nodes()[idx].is_some();
            pre.lemma_node_addrs(witness, witness);
            pre.lemma_node_count();
            lemma_slot_of_address(self.slot);
            assert(slot_base_of(self.slot as int) == self.slot) by {
                let s = self.slot;
                assert(s % 0x1000 == 0 ==> (s / 0x1000) * 0x1000 == s) by (bit_vector);
            }
            // A node holds a value, so the count is not zero
            assert(!pre.freelist().contains(witness as usize));
            lemma_shorter_than_nodes(pre.freelist(), pre.nodes().len(), witness as usize);
        }
        let idx = (addr - self.slot) / self.node_size;
        // Decrement alloc count
        let lower = |count: u32| -> (r: u32)
            requires
                count >= 1,
            ensures
                r == count - 1,
            {
                let lowered: u32 = count - 1;
                lowered
            };
        heap.update_slot_metadata(self.slot, lower);
        let mut taken: Option<T> = None;
        std::mem::swap(&mut self.nodes[idx], &mut taken);
        self.freelist.push(idx);
        proof {
            assert(self.nodes() =~= pre.nodes().update(idx as int, None));
            assert forall|i: int, j: int|
                0 <= i < self.freelist().len() && 0 <= j < self.freelist().len() && i
                    != j implies self.freelist()[i] != self.freelist()[j] by {
                if i < pre.freelist().len() && j < pre.freelist().len() {
                    assert(pre.freelist()[i] != pre.freelist()[j]);
                } else if i < pre.freelist().len() {
                    assert(pre.freelist().contains(pre.freelist()[i]));
                } else {
                    assert(pre.freelist().contains(pre.freelist()[j]));
                }
            }
            assert forall|k: int| 0 <= k < self.nodes().len() implies ((
            #[trigger] self.nodes()[k]).is_none() <==> self.freelist().contains(k as usize)) by {
                if k == idx {
                    assert(self.freelist()[self.freelist().len() - 1] == idx);
                } else {
                    if self.freelist().contains(k as usize) {
                        let i = self.freelist().index_of(k as usize);
                        assert(self.freelist()[i] == k);
                        assert(pre.freelist()[i] == k);
                        assert(pre.freelist().contains(k as usize));
                    }
                    if pre.nodes()[k].is_none() {
                        assert(pre.freelist().contains(k as usize));
                        let i = pre.freelist().index_of(k as usize);
                        assert(pre.freelist()[i] == k);
                        assert(self.freelist()[i] == k);
                    }
                }
            }
        }
        proof {
            assert(heap.owns_slot(self.slot() as usize)) by {
                assert(old(heap).chunks().allocated().contains(self.slot));
                assert(heap.chunks().allocated().contains(self.slot));
            }
            assert forall|i: int| 0 <= i < self.freelist().len() implies (
            #[trigger] self.freelist()[i]) < self.nodes().len() by {
                if i < pre.freelist().len() {
                    assert(pre.freelist()[i] < pre.nodes().len());
                }
            }
            assert(self.freelist().no_duplicates());
            assert(heap.chunks().metadata_of(self.slot() as usize) == self.live_count());
        }
        taken.unwrap()
    }

    /// The value in the node at address `addr`, which holds one.
    pub fn get(&self, addr: usize) -> (value: &T)
        requires
            self.node_size() >= 8,
            self.nodes().len() * self.node_size() <= SLOT_SIZE,
            self.holds(addr as int),
        ensures
            Some(*value) == self.nodes()[self.index_of(addr as int)],
    {
        proof {
            let witness = choose|idx: int|
                0 <= idx < self.nodes().len() && #[trigger] self.node_addr(idx) == addr
                    && self.nodes()[idx].is_some();
            self.lemma_node_addrs(witness, witness);
        }
        let idx = (addr - self.slot) / self.node_size;
        self.nodes[idx].as_ref().unwrap()
    }

    /// Number of values in the arena.
    pub fn len(&self) -> (n: usize)
        requires
            self.freelist().len() <= self.nodes().len(),
        ensures
            n == self.live_count(),
    {
        self.nodes.len() - self.freelist.len()
    }

    /// Number of nodes of the arena.
    pub fn capacity(&self) -> (n: usize)
        ensures
            n == self.nodes().len(),
    {
        self.nodes.len()
    }

    /// Address of the arena's slot.
    pub fn slot_addr(&self) -> (addr: usize)
        ensures
            addr == self.slot(),
    {
        self.slot
    }
}

/// A list of positions below `n`, each at most once, that lacks one of
/// the positions below `n` is shorter than `n`.
pub proof fn lemma_shorter_than_nodes(list: Seq<usize>, n: nat, missing: usize)
    requires
        list.no_duplicates(),
        forall|i: int| 0 <= i < list.len() ==> (#[trigger] list[i]) < n,
        missing < n,
        !list.contains(missing),
    ensures
        list.len() < n,
{
    let all = vstd::set_lib::set_int_range(0, n as int);
    vstd::set_lib::lemma_int_range(0, n as int);
    let as_ints = list.map_values(|x: usize| x as int);
    assert(as_ints.no_duplicates()) by {
        assert forall|i: int, j: int|
            0 <= i < as_ints.len() && 0 <= j < as_ints.len() && i != j implies as_ints[i]
            != as_ints[j] by {
            assert(list[i] != list[j]);
        }
    }
    as_ints.unique_seq_to_set();
    let held = as_ints.to_set();
    assert(held.subset_of(all.remove(missing as int))) by {
        assert forall|x: int| held.contains(x) implies all.remove(missing as int).contains(x) by {
            let i = as_ints.index_of(x);
            assert(as_ints[i] == x);
            assert(list[i] == x);
            if x == missing {
                assert(list.contains(missing));
            }
        }
    }
    vstd::set_lib::lemma_len_subset(held, all.remove(missing as int));
}

} // verus!
