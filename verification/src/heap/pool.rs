//! Object pools: allocators for objects of one size, carved out of slots.
//!
//! A pool holds one or more slots of the chunk allocator and divides each
//! into objects of `S` bytes. The free objects of all its slots form one
//! list, which is used as a stack. The metadata word of a slot counts the
//! slot's live objects; when it falls to zero the slot goes back to the
//! chunk allocator.

use super::chunk::{chunk_base_of, slot_index_of, ChunkAlloc, SLOT_SIZE};
use vstd::prelude::*;

verus! {

/// Address of the slot that holds the byte at `addr`.
pub open spec fn slot_base_of(addr: int) -> int {
    (addr / 0x1000) * 0x1000
}

/// What remains of a free list when the objects of the slot at `slot` are
/// taken out of it.
pub open spec fn outside_slot(list: Seq<usize>, slot: int) -> Seq<usize>
    decreases list.len(),
{
    if list.len() == 0 {
        Seq::empty()
    } else if slot_base_of(list.last() as int) == slot {
        outside_slot(list.drop_last(), slot)
    } else {
        outside_slot(list.drop_last(), slot).push(list.last())
    }
}

/// The free list that threads the first `count` objects of `size` bytes of
/// the slot at `slot`, the first object on top.
pub open spec fn threaded(slot: int, size: int, count: int) -> Seq<usize> {
    Seq::new(count as nat, |i: int| (slot + (count - 1 - i) * size) as usize)
}

/// What is in a free list without the objects of a slot: the entries of
/// the list that lie in other slots, none of them more often than before.
#[verifier::rlimit(30)]
pub proof fn lemma_outside_slot(list: Seq<usize>, slot: int)
    ensures
        forall|x: usize| #[trigger]
            outside_slot(list, slot).contains(x) ==> list.contains(x) && slot_base_of(x as int)
                != slot,
        forall|x: usize| #[trigger]
            list.contains(x) && slot_base_of(x as int) != slot ==> outside_slot(
                list,
                slot,
            ).contains(x),
        list.no_duplicates() ==> outside_slot(list, slot).no_duplicates(),
        outside_slot(list, slot).len() <= list.len(),
    decreases list.len(),
{
    if list.len() > 0 {
        let front = list.drop_last();
        let last = list.last();
        lemma_outside_slot(front, slot);
        let out = outside_slot(list, slot);
        let out_front = outside_slot(front, slot);
        let kept = slot_base_of(last as int) != slot;
        assert(out == if kept {
            out_front.push(last)
        } else {
            out_front
        });
        assert(list[list.len() - 1] == last);
        assert forall|x: usize| #[trigger] out.contains(x) implies list.contains(x)
            && slot_base_of(x as int) != slot by {
            let i = out.index_of(x);
            assert(out[i] == x);
            if kept && i == out.len() - 1 {
                assert(x == last);
            } else {
                assert(out_front[i] == x);
                assert(out_front.contains(x));
                assert(front.contains(x));
                let j = front.index_of(x);
                assert(front[j] == x);
                assert(list[j] == x);
            }
        }
        assert forall|x: usize| #[trigger]
            list.contains(x) && slot_base_of(x as int) != slot implies out.contains(x) by {
            let j = list.index_of(x);
            assert(list[j] == x);
            if j == list.len() - 1 {
                assert(out[out.len() - 1] == x);
            } else {
                assert(front[j] == x);
                assert(front.contains(x));
                assert(out_front.contains(x));
                let i = out_front.index_of(x);
                assert(out_front[i] == x);
                assert(out[i] == x);
            }
        }
        if list.no_duplicates() {
            assert forall|i: int, j: int|
                0 <= i < front.len() && 0 <= j < front.len() && i != j implies front[i]
                != front[j] by {
                assert(list[i] != list[j]);
            }
            if kept {
                assert forall|i: int, j: int|
                    0 <= i < out.len() && 0 <= j < out.len() && i != j implies out[i] != out[j] by {
                    if i == out.len() - 1 || j == out.len() - 1 {
                        let other = if i == out.len() - 1 {
                            j
                        } else {
                            i
                        };
                        assert(out_front[other] == out[other]);
                        assert(out_front.contains(out[other]));
                        assert(front.contains(out[other]));
                        let k = front.index_of(out[other]);
                        assert(front[k] == out[other]);
                        assert(list[k] == out[other]);
                        assert(list[k] != list[list.len() - 1]);
                    } else {
                        assert(out_front[i] == out[i] && out_front[j] == out[j]);
                    }
                }
            }
        }
    }
}

/// An object pool for allocating objects of size `S`.
///
/// The pool is backed by one or more slots. Each 4 KiB slot is divided
/// into a contiguous array of objects. Free objects form a list; the
/// object that was freed last is handed out first.
pub struct ObjectPool<const S: usize> {
    free_obj_list: Vec<usize>,
    slots: Ghost<Set<int>>,
}

impl<const S: usize> ObjectPool<S> {
    /// Whether slots can be divided into objects of `S` bytes: `S` is a
    /// multiple of the pointer size and divides the slot size, and a slot
    /// holds at least two objects.
    pub open spec fn valid_size() -> bool {
        S % 8 == 0 && 8 <= S <= 2048 && 4096int % (S as int) == 0
    }

    /// Number of objects in a slot.
    pub open spec fn objs_per_slot() -> int {
        4096int / (S as int)
    }

    /// The free list: the addresses of the free objects, the next to be
    /// handed out last.
    pub closed spec fn free_list(&self) -> Seq<usize> {
        self.free_obj_list@
    }

    /// The addresses of the slots that the pool holds.
    pub closed spec fn slots(&self) -> Set<int> {
        self.slots@
    }

    /// Whether `addr` is the address of an object of the pool.
    pub open spec fn is_object(&self, addr: int) -> bool {
        &&& self.slots().contains(slot_base_of(addr))
        &&& (addr - slot_base_of(addr)) % (S as int) == 0
    }

    /// Whether `addr` is the address of an object that is handed out.
    pub open spec fn is_live(&self, addr: int) -> bool {
        &&& 0 <= addr <= usize::MAX
        &&& self.is_object(addr)
        &&& !self.free_list().contains(addr as usize)
    }

    /// The addresses of the objects that are handed out.
    pub open spec fn live(&self) -> Set<int> {
        Set::new(|a: int| self.is_live(a))
    }

    /// The addresses of the objects of the slot at `slot` that are handed
    /// out.
    pub open spec fn live_in_slot(&self, slot: int) -> Set<int> {
        Set::new(|a: int| self.is_live(a) && slot_base_of(a) == slot)
    }

    /// Number of objects that are handed out.
    pub open spec fn live_objects(&self) -> nat {
        self.live().len()
    }

    /// The pool fits the chunk allocator:
    /// - no object is in the free list twice, and all that is in the free
    ///   list is an object of the pool;
    /// - every slot of the pool is a slot that the chunk allocator has
    ///   handed out;
    /// - the metadata word of each slot of the pool is the number of live
    ///   objects in the slot, which is not zero.
    pub open spec fn wf(&self, heap: &ChunkAlloc) -> bool {
        &&& Self::valid_size()
        &&& self.free_list().no_duplicates()
        &&& forall|i: int|
            0 <= i < self.free_list().len() ==> self.is_object(
                (#[trigger] self.free_list()[i]) as int,
            )
        &&& forall|s: int| #[trigger]
            self.slots().contains(s) ==> {
                &&& 0 <= s <= usize::MAX
                &&& heap.owns(s as usize)
                &&& heap.metadata_of(s as usize) == self.live_in_slot(s).len()
                &&& heap.metadata_of(s as usize) >= 1
            }
        &&& self.live().finite()
    }

    /// A pool without slots.
    pub fn new() -> (pool: Self)
        requires
            Self::valid_size(),
        ensures
            pool.free_list() == Seq::<usize>::empty(),
            pool.slots() == Set::<int>::empty(),
            pool.live() == Set::<int>::empty(),
            pool.live_objects() == 0,
            forall|heap: ChunkAlloc| pool.wf(&heap),
    {
        let pool = ObjectPool { free_obj_list: Vec::new(), slots: Ghost(Set::empty()) };
        proof {
            assert(pool.live() =~= Set::<int>::empty());
        }
        pool
    }

    /// Number of objects in the free list.
    pub fn num_free(&self) -> (n: usize)
        ensures
            n == self.free_list().len(),
    {
        self.free_obj_list.len()
    }
}

/// An address in a slot other than a header's lies in the same chunk, and
/// in the same slot of it, as the address of its slot.
pub proof fn lemma_slot_of_address(addr: usize)
    ensures
        slot_base_of(addr as int) <= addr < slot_base_of(addr as int) + 4096,
        slot_base_of(addr as int) % 4096 == 0,
        chunk_base_of(slot_base_of(addr as int)) == chunk_base_of(addr as int),
        slot_index_of(slot_base_of(addr as int)) == slot_index_of(addr as int),
        slot_base_of(slot_base_of(addr as int)) == slot_base_of(addr as int),
{
    assert((addr / 0x1000) * 0x1000 <= addr && addr - (addr / 0x1000) * 0x1000 < 0x1000 && ((addr
        / 0x1000) * 0x1000) % 0x1000 == 0 && (((addr / 0x1000) * 0x1000) / 0x200_000) * 0x200_000
        == (addr / 0x200_000) * 0x200_000 && (((addr / 0x1000) * 0x1000) % 0x200_000) / 0x1000 == (
    addr % 0x200_000) / 0x1000 && (((addr / 0x1000) * 0x1000) / 0x1000) * 0x1000 == (addr
        / 0x1000) * 0x1000) by (bit_vector);
}

/// Different slots differ in their chunk or in their index within it.
pub proof fn lemma_slots_differ(s: usize, t: usize)
    requires
        s % 4096 == 0,
        t % 4096 == 0,
        s != t,
    ensures
        chunk_base_of(s as int) != chunk_base_of(t as int) || slot_index_of(s as int)
            != slot_index_of(t as int),
{
    assert(s % 0x1000 == 0 && t % 0x1000 == 0 && (s / 0x200_000) * 0x200_000 == (t / 0x200_000)
        * 0x200_000 && (s % 0x200_000) / 0x1000 == (t % 0x200_000) / 0x1000 ==> s == t)
        by (bit_vector);
}

/// The `k`-th object of a slot lies in that slot.
pub proof fn lemma_object_in_slot(slot: int, size: int, k: int)
    requires
        slot % 4096 == 0,
        slot >= 0,
        size >= 1,
        4096int % size == 0,
        0 <= k < 4096int / size,
    ensures
        0 <= k * size <= 4096 - size,
        slot_base_of(slot + k * size) == slot,
        (slot + k * size - slot) % size == 0,
{
    let n = 4096int / size;
    vstd::arithmetic::div_mod::lemma_fundamental_div_mod(4096, size);
    assert(size * n == 4096);
    assert(k * size <= 4096 - size) by (nonlinear_arith)
        requires
            0 <= k < n,
            size * n == 4096,
            size >= 1,
    ;
    assert(k * size >= 0) by (nonlinear_arith)
        requires
            k >= 0,
            size >= 1,
    ;
    vstd::arithmetic::div_mod::lemma_mod_multiples_basic(k, size);
    let off = k * size;
    assert(slot_base_of(slot + off) == slot) by {
        assert(slot == 4096 * (slot / 4096));
        vstd::arithmetic::div_mod::lemma_fundamental_div_mod_converse(
            slot + off,
            4096,
            slot / 4096,
            off,
        );
    }
}

/// An object of a slot is the `k`-th object of the slot for some `k`
/// below the number of objects in a slot.
pub proof fn lemma_object_index(slot: int, size: int, addr: int) -> (k: int)
    requires
        size >= 1,
        4096int % size == 0,
        slot <= addr < slot + 4096,
        (addr - slot) % size == 0,
    ensures
        0 <= k < 4096int / size,
        addr == slot + k * size,
{
    let n = 4096int / size;
    let k = (addr - slot) / size;
    vstd::arithmetic::div_mod::lemma_fundamental_div_mod(4096, size);
    vstd::arithmetic::div_mod::lemma_fundamental_div_mod(addr - slot, size);
    assert(size * k == k * size) by (nonlinear_arith);
    assert(0 <= k < n) by (nonlinear_arith)
        requires
            0 <= size * k < 4096,
            size * n == 4096,
            size >= 1,
    ;
    k
}

impl<const S: usize> ObjectPool<S> {
    /// A slot holds between 2 and 512 objects, which fill it.
    pub proof fn lemma_objs_per_slot()
        requires
            Self::valid_size(),
        ensures
            2 <= Self::objs_per_slot() <= 512,
            Self::objs_per_slot() * S == 4096,
    {
        let n = Self::objs_per_slot();
        vstd::arithmetic::div_mod::lemma_fundamental_div_mod(4096, S as int);
        assert(S * n == 4096);
        assert(n >= 2) by (nonlinear_arith)
            requires
                S * n == 4096,
                8 <= S <= 2048,
        ;
        assert(n <= 512) by (nonlinear_arith)
            requires
                S * n == 4096,
                8 <= S <= 2048,
        ;
        assert(n * S == S * n) by (nonlinear_arith);
    }

    /// A chunk allocator with the same chunks fits the pool as well.
    pub proof fn lemma_same_heap(&self, heap: &ChunkAlloc, other: &ChunkAlloc)
        requires
            self.wf(heap),
            other.chunks() == heap.chunks(),
        ensures
            self.wf(other),
            other.allocated() == heap.allocated(),
    {
        assert forall|p: usize| other.owns(p) == heap.owns(p) by {}
        assert forall|p: usize| other.metadata_of(p) == heap.metadata_of(p) by {}
        assert(other.allocated() =~= heap.allocated());
        assert forall|t: int| #[trigger] self.slots().contains(t) implies other.metadata_of(
            t as usize,
        ) == self.live_in_slot(t).len() && other.metadata_of(t as usize) >= 1
            && other.owns(t as usize) by {
            assert(heap.owns(t as usize));
            assert(other.owns(t as usize) == heap.owns(t as usize));
            assert(other.metadata_of(t as usize) == heap.metadata_of(t as usize));
        }
    }

    /// A pool with the same free list and the same slots fits the chunk
    /// allocator as well, and has the same objects live.
    pub proof fn lemma_same_pool(&self, other: &ObjectPool<S>, heap: &ChunkAlloc)
        requires
            self.wf(heap),
            other.free_list() == self.free_list(),
            other.slots() == self.slots(),
        ensures
            other.wf(heap),
            other.live() == self.live(),
    {
        assert forall|a: int| other.is_live(a) == self.is_live(a) by {}
        assert(other.live() =~= self.live());
        assert forall|t: int| #[trigger] other.slots().contains(t) implies heap.metadata_of(
            t as usize,
        ) == other.live_in_slot(t).len() by {
            assert(self.slots().contains(t));
            assert(other.live_in_slot(t) =~= self.live_in_slot(t));
        }
        assert forall|i: int| 0 <= i < other.free_list().len() implies other.is_object(
            (#[trigger] other.free_list()[i]) as int,
        ) by {
            assert(self.is_object(self.free_list()[i] as int));
        }
    }

    /// The live objects of a slot are finitely many, and at most 4096.
    pub proof fn lemma_live_in_slot_finite(&self, slot: int)
        ensures
            self.live_in_slot(slot).finite(),
            self.live_in_slot(slot).len() <= 4096,
    {
        let all = vstd::set_lib::set_int_range(slot, slot + 4096);
        vstd::set_lib::lemma_int_range(slot, slot + 4096);
        assert forall|a: int| self.live_in_slot(slot).contains(a) implies all.contains(a) by {
            lemma_slot_of_address(a as usize);
        }
        vstd::set_lib::lemma_len_subset(self.live_in_slot(slot), all);
    }

    /// Allocates a new slot, threads all its objects but the last onto the
    /// free list, the first object on top, and returns the last object,
    /// ready to be used as an allocation.
    #[verifier::rlimit(30)]
    fn new_chunk(&mut self, heap: &mut ChunkAlloc) -> (r: Option<usize>)
        requires
            Self::valid_size(),
            old(heap).wf(),
        ensures
            final(heap).wf(),
            old(heap).same_chunks(final(heap)),
            final(self).slots() == old(self).slots(),
            match r {
                Some(obj) => {
                    &&& slot_base_of(obj as int) + 4096 <= usize::MAX
                    &&& !old(heap).owns(slot_base_of(obj as int) as usize)
                    &&& final(heap).allocated() == old(heap).allocated().insert(
                        slot_base_of(obj as int) as usize,
                    )
                    &&& final(heap).metadata_of(slot_base_of(obj as int) as usize) == 0
                    &&& old(heap).same_metadata_but(final(heap), slot_base_of(obj as int) as usize)
                    &&& obj == slot_base_of(obj as int) + (Self::objs_per_slot() - 1) * S
                    &&& final(self).free_list() == old(self).free_list() + threaded(
                        slot_base_of(obj as int),
                        S as int,
                        Self::objs_per_slot() - 1,
                    )
                },
                None => {
                    &&& old(heap).is_exhausted()
                    &&& final(heap).chunks() == old(heap).chunks()
                    &&& final(self).free_list() == old(self).free_list()
                },
            },
    {
        let objs_per_chunk = SLOT_SIZE / S;
        proof {
            Self::lemma_objs_per_slot();
        }
        let slot = match heap.alloc_slot() {
            Some(slot) => slot,
            None => {
                return None;
            },
        };
        let ghost old_list = self.free_obj_list@;
        let ghost n = Self::objs_per_slot();
        proof {
            Self::lemma_objs_per_slot();
            lemma_slot_of_address(slot);
            assert(slot_base_of(slot as int) == slot) by {
                assert(slot % 0x1000 == 0 ==> (slot / 0x1000) * 0x1000 == slot) by (bit_vector);
            }
            heap.lemma_slot_fits(slot);
            lemma_object_in_slot(slot as int, S as int, n - 1);
        }
        // Set up the objects as a list, the first object on top
        // The last object is used for the current allocation
        let mut i: usize = objs_per_chunk - 1;
        while i > 0
            invariant
                Self::valid_size(),
                objs_per_chunk == n,
                n == Self::objs_per_slot(),
                i <= n - 1,
                slot % 4096 == 0,
                slot + 4096 <= usize::MAX,
                self.slots() == old(self).slots(),
                self.free_obj_list@ == old_list + threaded(slot as int, S as int, n - 1).subrange(
                    0,
                    n - 1 - i,
                ),
            decreases i,
        {
            i = i - 1;
            proof {
                lemma_object_in_slot(slot as int, S as int, i as int);
            }
            self.free_obj_list.push(slot + i * S);
            proof {
                let t = threaded(slot as int, S as int, n - 1);
                assert(t[n - 2 - i] == (slot + i * S) as usize);
                assert(self.free_obj_list@ =~= old_list + t.subrange(0, n - 1 - i));
            }
        }
        proof {
            let t = threaded(slot as int, S as int, n - 1);
            assert(t.subrange(0, n - 1) =~= t);
        }
        let obj = slot + (objs_per_chunk - 1) * S;
        Some(obj)
    }

    /// Allocate an object of size `S`.
    ///
    /// If the free list is empty, a new slot is requested from the chunk
    /// allocator, its last object is handed out and the others go onto the
    /// free list. Else the object on top of the free list is handed out.
    /// The live count of the object's slot goes up by one. Returns `None`
    /// if the free list is empty and the chunk allocator has no slot left.
    #[verifier::rlimit(30)]
    pub fn allocate(&mut self, heap: &mut ChunkAlloc) -> (r: Option<usize>)
        requires
            old(heap).wf(),
            old(self).wf(old(heap)),
        ensures
            final(heap).wf(),
            final(self).wf(final(heap)),
            old(heap).same_chunks(final(heap)),
            match r {
                Some(obj) => {
                    &&& !old(self).is_live(obj as int)
                    &&& final(self).live() == old(self).live().insert(obj as int)
                    &&& final(self).live_objects() == old(self).live_objects() + 1
                    &&& if old(self).free_list().len() > 0 {
                        &&& obj == old(self).free_list().last()
                        &&& final(self).free_list() == old(self).free_list().drop_last()
                        &&& final(self).slots() == old(self).slots()
                        &&& final(heap).allocated() == old(heap).allocated()
                    } else {
                        &&& obj == slot_base_of(obj as int) + (Self::objs_per_slot() - 1) * S
                        &&& final(self).free_list() == threaded(
                            slot_base_of(obj as int),
                            S as int,
                            Self::objs_per_slot() - 1,
                        )
                        &&& final(self).slots() == old(self).slots().insert(slot_base_of(obj as int))
                        &&& !old(heap).owns(slot_base_of(obj as int) as usize)
                        &&& final(heap).allocated() == old(heap).allocated().insert(
                            slot_base_of(obj as int) as usize,
                        )
                    }
                },
                None => {
                    &&& old(self).free_list().len() == 0
                    &&& old(heap).is_exhausted()
                    &&& final(heap).chunks() == old(heap).chunks()
                    &&& final(self).free_list() == old(self).free_list()
                    &&& final(self).slots() == old(self).slots()
                },
            },
    {
        let ghost pre = *self;
        let ghost pre_heap = *heap;
        // Pop free object off the top of the list
        let popped = self.free_obj_list.pop();
        let obj = match popped {
            Some(obj) => obj,
            None => {
                match self.new_chunk(heap) {
                    Some(obj) => {
                        proof {
                            self.slots@ = self.slots@.insert(slot_base_of(obj as int));
                        }
                        obj
                    },
                    None => {
                        proof {
                            assert(self.free_list() =~= pre.free_list());
                            assert(self.live() =~= pre.live());
                            assert forall|t: int| self.live_in_slot(t) == pre.live_in_slot(t) by {
                                assert(self.live_in_slot(t) =~= pre.live_in_slot(t));
                            }
                            pre.lemma_same_heap(&pre_heap, heap);
                            pre.lemma_same_pool(self, heap);
                        }
                        return None;
                    },
                }
            },
        };
        let ghost mid_heap = *heap;
        let ghost slot = slot_base_of(obj as int);
        proof {
            lemma_slot_of_address(obj);
            if pre.free_list().len() > 0 {
                assert(pre.free_list()[pre.free_list().len() - 1] == obj);
                assert(pre.is_object(obj as int));
                assert(pre.slots().contains(slot));
                assert(pre_heap.owns(slot as usize));
            } else {
                assert(mid_heap.allocated().contains(slot as usize));
                assert(mid_heap.owns(slot as usize));
                assert(pre.free_list() =~= Seq::<usize>::empty());
            }
            pre_heap.lemma_same_chunks(&mid_heap);
            pre.lemma_live_in_slot_finite(slot);
        }
        let raise = |count: u32| -> (r: u32)
            requires
                count < 0xffff_ffff,
            ensures
                r == count + 1,
            {
                let raised: u32 = count + 1;
                raised
            };
        heap.update_slot_metadata(obj, raise);
        proof {
            mid_heap.lemma_same_chunks(heap);
            pre.lemma_allocated(self, &pre_heap, &mid_heap, heap, obj);
        }
        Some(obj)
    }

    /// A pool that handed out an object, from the top of its free list or
    /// as the last object of a fresh slot whose other objects it put on
    /// the free list, fits the chunk allocator again once the live count
    /// of the object's slot was raised by one.
    #[verifier::rlimit(30)]
    proof fn lemma_allocated(
        &self,
        post: &ObjectPool<S>,
        heap: &ChunkAlloc,
        mid_heap: &ChunkAlloc,
        post_heap: &ChunkAlloc,
        obj: usize,
    )
        requires
            heap.wf(),
            mid_heap.wf(),
            post_heap.wf(),
            self.wf(heap),
            heap.same_chunks(mid_heap),
            mid_heap.same_chunks(post_heap),
            post_heap.allocated() == mid_heap.allocated(),
            mid_heap.same_metadata_but(post_heap, obj),
            post_heap.metadata_of(obj) == mid_heap.metadata_of(obj) + 1,
            slot_base_of(obj as int) + 4096 <= usize::MAX,
            self.free_list().len() > 0 ==> {
                &&& obj == self.free_list().last()
                &&& post.free_list() == self.free_list().drop_last()
                &&& post.slots() == self.slots()
                &&& mid_heap.chunks() == heap.chunks()
            },
            self.free_list().len() == 0 ==> {
                &&& !heap.owns(slot_base_of(obj as int) as usize)
                &&& mid_heap.allocated() == heap.allocated().insert(
                    slot_base_of(obj as int) as usize,
                )
                &&& mid_heap.metadata_of(slot_base_of(obj as int) as usize) == 0
                &&& heap.same_metadata_but(mid_heap, slot_base_of(obj as int) as usize)
                &&& obj == slot_base_of(obj as int) + (Self::objs_per_slot() - 1) * S
                &&& post.free_list() == threaded(
                    slot_base_of(obj as int),
                    S as int,
                    Self::objs_per_slot() - 1,
                )
                &&& post.slots() == self.slots().insert(slot_base_of(obj as int))
            },
        ensures
            post.wf(post_heap),
            !self.is_live(obj as int),
            post.live() == self.live().insert(obj as int),
            post.live_objects() == self.live_objects() + 1,
    {
        let slot = slot_base_of(obj as int);
        let n = Self::objs_per_slot();
        let fresh = self.free_list().len() == 0;
        Self::lemma_objs_per_slot();
        lemma_slot_of_address(obj);
        if !fresh {
            self.lemma_same_heap(heap, mid_heap);
        }
        heap.lemma_same_chunks(mid_heap);
        mid_heap.lemma_same_chunks(post_heap);
        if fresh {
            assert(!self.slots().contains(slot));
            lemma_object_in_slot(slot, S as int, n - 1);
        } else {
            assert(self.free_list()[self.free_list().len() - 1] == obj);
            assert(self.is_object(obj as int));
        }
        // The free list after the allocation.
        assert forall|i: int| 0 <= i < post.free_list().len() implies post.is_object(
            (#[trigger] post.free_list()[i]) as int,
        ) && post.free_list()[i] != obj by {
            if fresh {
                lemma_object_in_slot(slot, S as int, n - 2 - i);
                assert((n - 2 - i) * S < (n - 1) * S) by (nonlinear_arith)
                    requires
                        S >= 1,
                        i >= 0,
                ;
            } else {
                assert(post.free_list()[i] == self.free_list()[i]);
                assert(self.is_object(self.free_list()[i] as int));
            }
        }
        assert(post.free_list().no_duplicates()) by {
            assert forall|i: int, j: int|
                0 <= i < post.free_list().len() && 0 <= j < post.free_list().len() && i
                    != j implies post.free_list()[i] != post.free_list()[j] by {
                if fresh {
                    lemma_object_in_slot(slot, S as int, n - 2 - i);
                    lemma_object_in_slot(slot, S as int, n - 2 - j);
                    assert((n - 2 - i) * S != (n - 2 - j) * S) by (nonlinear_arith)
                        requires
                            S >= 1,
                            i != j,
                    ;
                } else {
                    assert(post.free_list()[i] == self.free_list()[i]);
                    assert(post.free_list()[j] == self.free_list()[j]);
                }
            }
        }
        // Which objects are live after the allocation.
        assert forall|a: int| post.is_live(a) <==> (a == obj || self.is_live(a)) by {
            if 0 <= a <= usize::MAX {
                let au = a as usize;
                if fresh {
                    if slot_base_of(a) == slot {
                        assert(!self.is_object(a));
                        if (a - slot) % (S as int) == 0 {
                            lemma_slot_of_address(au);
                            let k = lemma_object_index(slot, S as int, a);
                            if k < n - 1 {
                                assert(post.free_list()[n - 2 - k] == au);
                            } else {
                                if post.free_list().contains(au) {
                                    let i = post.free_list().index_of(au);
                                    assert(post.free_list()[i] == au);
                                }
                            }
                        }
                    } else {
                        if post.free_list().contains(au) {
                            let i = post.free_list().index_of(au);
                            assert(post.free_list()[i] == au);
                            lemma_object_in_slot(slot, S as int, n - 2 - i);
                        }
                    }
                } else {
                    if au != obj {
                        if self.free_list().contains(au) {
                            let i = self.free_list().index_of(au);
                            assert(self.free_list()[i] == au);
                            assert(post.free_list()[i] == au);
                        }
                        if post.free_list().contains(au) {
                            let i = post.free_list().index_of(au);
                            assert(post.free_list()[i] == au);
                            assert(self.free_list()[i] == au);
                        }
                    } else {
                        if post.free_list().contains(au) {
                            let i = post.free_list().index_of(au);
                            assert(post.free_list()[i] == au);
                        }
                    }
                }
            }
        }
        assert(post.live() =~= self.live().insert(obj as int));
        assert(!self.is_live(obj as int));
        // The live counts of the slots.
        self.lemma_live_in_slot_finite(slot);
        assert(post.live_in_slot(slot) =~= self.live_in_slot(slot).insert(obj as int));
        if fresh {
            assert(self.live_in_slot(slot) =~= Set::<int>::empty());
        }
        assert forall|t: int| #[trigger] post.slots().contains(t) implies 0 <= t <= usize::MAX
            && post_heap.owns(t as usize) && post_heap.metadata_of(t as usize)
            == post.live_in_slot(t).len() && post_heap.metadata_of(t as usize) >= 1 by {
            if t != slot {
                assert(self.slots().contains(t));
                assert(heap.owns(t as usize));
                assert(post.live_in_slot(t) =~= self.live_in_slot(t));
                lemma_slots_differ(t as usize, slot as usize);
                assert(heap.covers(t as usize));
                assert(mid_heap.covers(t as usize));
                assert(mid_heap.metadata_of(t as usize) == heap.metadata_of(t as usize));
                assert(post_heap.metadata_of(t as usize) == mid_heap.metadata_of(t as usize));
                assert(mid_heap.allocated().contains(t as usize));
                assert(post_heap.allocated().contains(t as usize));
            } else {
                assert(mid_heap.allocated().contains(slot as usize));
                assert(post_heap.allocated().contains(slot as usize));
                assert(post_heap.metadata_of(slot as usize) == post_heap.metadata_of(obj));
                assert(mid_heap.metadata_of(slot as usize) == mid_heap.metadata_of(obj));
                if !fresh {
                    assert(self.slots().contains(slot));
                }
            }
        }
    }
}

impl<const S: usize> ObjectPool<S> {
    /// Takes the objects of the slot at `slot` out of the free list.
    fn unthread(&mut self, slot: usize)
        ensures
            final(self).free_list() == outside_slot(old(self).free_list(), slot as int),
            final(self).slots() == old(self).slots(),
    {
        let mut kept: Vec<usize> = Vec::new();
        let mut i: usize = 0;
        let n = self.free_obj_list.len();
        while i < n
            invariant
                n == self.free_obj_list@.len(),
                i <= n,
                self.free_obj_list@ == old(self).free_obj_list@,
                self.slots() == old(self).slots(),
                kept@ == outside_slot(self.free_obj_list@.take(i as int), slot as int),
            decreases n - i,
        {
            let entry = self.free_obj_list[i];
            proof {
                let next = self.free_obj_list@.take(i + 1);
                assert(next.drop_last() =~= self.free_obj_list@.take(i as int));
                assert(next.last() == entry);
            }
            if (entry / SLOT_SIZE) * SLOT_SIZE != slot {
                kept.push(entry);
            }
            i = i + 1;
        }
        proof {
            assert(self.free_obj_list@.take(n as int) =~= self.free_obj_list@);
        }
        self.free_obj_list = kept;
    }

    /// Free a previously allocated object.
    ///
    /// The object goes on top of the free list, and the live count of its
    /// slot goes down by one. When the count reaches zero, the objects of
    /// the slot are taken out of the free list, and the slot goes back to
    /// the chunk allocator.
    #[verifier::rlimit(30)]
    pub fn free(&mut self, heap: &mut ChunkAlloc, obj: usize)
        requires
            old(heap).wf(),
            old(self).wf(old(heap)),
            old(self).is_live(obj as int),
        ensures
            final(heap).wf(),
            final(self).wf(final(heap)),
            old(heap).same_chunks(final(heap)),
            final(self).live() == old(self).live().remove(obj as int),
            final(self).live_objects() + 1 == old(self).live_objects(),
            if old(heap).metadata_of(obj) > 1 {
                &&& final(self).free_list() == old(self).free_list().push(obj)
                &&& final(self).slots() == old(self).slots()
                &&& final(heap).allocated() == old(heap).allocated()
            } else {
                &&& final(self).free_list() == outside_slot(
                    old(self).free_list(),
                    slot_base_of(obj as int),
                )
                &&& final(self).slots() == old(self).slots().remove(slot_base_of(obj as int))
                &&& final(heap).allocated() == old(heap).allocated().remove(
                    slot_base_of(obj as int) as usize,
                )
            },
    {
        let ghost pre = *self;
        let ghost pre_heap = *heap;
        let ghost slot_addr = slot_base_of(obj as int);
        proof {
            lemma_slot_of_address(obj);
            assert(pre.slots().contains(slot_addr));
            assert(pre_heap.owns(slot_addr as usize));
            assert(pre_heap.metadata_of(obj) == pre_heap.metadata_of(slot_addr as usize));
        }
        self.free_obj_list.push(obj);
        let lower = |count: u32| -> (r: u32)
            requires
                count >= 1,
            ensures
                r == count - 1,
            {
                let lowered: u32 = count - 1;
                lowered
            };
        let count = heap.update_slot_metadata(obj, lower);
        let ghost mid = *self;
        let ghost mid_heap = *heap;
        if count == 0 {
            // No live object is left in the slot
            let slot = (obj / SLOT_SIZE) * SLOT_SIZE;
            proof {
                pre_heap.lemma_same_chunks(&mid_heap);
                assert(mid_heap.allocated().contains(slot));
            }
            self.unthread(slot);
            heap.free_slot(slot);
            proof {
                self.slots@ = self.slots@.remove(slot as int);
                mid_heap.lemma_same_chunks(heap);
                assert(outside_slot(pre.free_list().push(obj), slot_addr) == outside_slot(
                    pre.free_list(),
                    slot_addr,
                )) by {
                    assert(pre.free_list().push(obj).drop_last() =~= pre.free_list());
                }
            }
        }
        proof {
            pre.lemma_freed(self, &pre_heap, &mid_heap, heap, obj);
        }
    }

    /// A pool that took back a live object on top of its free list fits
    /// the chunk allocator again once the live count of the object's slot
    /// was lowered by one and, if that left the slot without a live
    /// object, the slot was given back and its objects were taken out of
    /// the free list.
    #[verifier::rlimit(30)]
    proof fn lemma_freed(
        &self,
        post: &ObjectPool<S>,
        heap: &ChunkAlloc,
        mid_heap: &ChunkAlloc,
        post_heap: &ChunkAlloc,
        obj: usize,
    )
        requires
            heap.wf(),
            mid_heap.wf(),
            post_heap.wf(),
            self.wf(heap),
            self.is_live(obj as int),
            heap.same_chunks(mid_heap),
            mid_heap.same_chunks(post_heap),
            mid_heap.allocated() == heap.allocated(),
            heap.same_metadata_but(mid_heap, obj),
            mid_heap.metadata_of(obj) + 1 == heap.metadata_of(obj),
            mid_heap.metadata_of(obj) > 0 ==> {
                &&& post_heap.chunks() == mid_heap.chunks()
                &&& post.free_list() == self.free_list().push(obj)
                &&& post.slots() == self.slots()
            },
            mid_heap.metadata_of(obj) == 0 ==> {
                &&& post_heap.allocated() == mid_heap.allocated().remove(
                    slot_base_of(obj as int) as usize,
                )
                &&& forall|q: usize|
                    mid_heap.covers(q) ==> #[trigger] post_heap.metadata_of(q)
                        == mid_heap.metadata_of(q)
                &&& post.free_list() == outside_slot(self.free_list(), slot_base_of(obj as int))
                &&& post.slots() == self.slots().remove(slot_base_of(obj as int))
            },
        ensures
            post.wf(post_heap),
            post.live() == self.live().remove(obj as int),
            post.live_objects() + 1 == self.live_objects(),
            post_heap.allocated() == if heap.metadata_of(obj) > 1 {
                heap.allocated()
            } else {
                heap.allocated().remove(slot_base_of(obj as int) as usize)
            },
    {
        let slot = slot_base_of(obj as int);
        let released = mid_heap.metadata_of(obj) == 0;
        let pushed = self.free_list().push(obj);
        lemma_slot_of_address(obj);
        heap.lemma_same_chunks(mid_heap);
        mid_heap.lemma_same_chunks(post_heap);
        assert(self.slots().contains(slot));
        assert(heap.owns(slot as usize));
        assert(heap.metadata_of(slot as usize) == heap.metadata_of(obj));
        assert(mid_heap.metadata_of(slot as usize) == mid_heap.metadata_of(obj));
        self.lemma_live_in_slot_finite(slot);
        lemma_outside_slot(self.free_list(), slot);
        if !released {
            assert(post_heap.allocated() =~= mid_heap.allocated()) by {
                assert forall|p: usize| post_heap.owns(p) == mid_heap.owns(p) by {}
            }
        }
        // The free list after the object was freed.
        assert(post.free_list().no_duplicates()) by {
            if !released {
                assert forall|i: int, j: int|
                    0 <= i < pushed.len() && 0 <= j < pushed.len() && i != j implies pushed[i]
                    != pushed[j] by {
                    if i == pushed.len() - 1 {
                        assert(self.free_list()[j] == pushed[j]);
                    } else if j == pushed.len() - 1 {
                        assert(self.free_list()[i] == pushed[i]);
                    } else {
                        assert(self.free_list()[i] == pushed[i] && self.free_list()[j]
                            == pushed[j]);
                    }
                }
            }
        }
        assert forall|i: int| 0 <= i < post.free_list().len() implies post.is_object(
            (#[trigger] post.free_list()[i]) as int,
        ) by {
            let e = post.free_list()[i];
            if released {
                assert(post.free_list().contains(e));
                assert(self.free_list().contains(e));
                let j = self.free_list().index_of(e);
                assert(self.free_list()[j] == e);
                assert(self.is_object(e as int));
            } else {
                if i < self.free_list().len() {
                    assert(self.free_list()[i] == e);
                    assert(self.is_object(e as int));
                }
            }
        }
        // Which objects are live after the object was freed.
        if released {
            // The slot had no live object but the one that was freed.
            assert(self.live_in_slot(slot).len() == 1);
            assert(self.live_in_slot(slot).contains(obj as int));
            assert(self.live_in_slot(slot).remove(obj as int).len() == 0);
            assert(self.live_in_slot(slot).remove(obj as int) =~= Set::<int>::empty());
        }
        assert forall|a: int| post.is_live(a) <==> (a != obj && self.is_live(a)) by {
            if 0 <= a <= usize::MAX {
                let au = a as usize;
                if released {
                    if slot_base_of(a) == slot {
                        if self.is_live(a) && a != obj {
                            assert(self.live_in_slot(slot).remove(obj as int).contains(a));
                        }
                    } else {
                        assert(post.free_list().contains(au) == self.free_list().contains(au));
                    }
                } else {
                    if au != obj {
                        if self.free_list().contains(au) {
                            let i = self.free_list().index_of(au);
                            assert(self.free_list()[i] == au);
                            assert(pushed[i] == au);
                        }
                        if pushed.contains(au) {
                            let i = pushed.index_of(au);
                            assert(pushed[i] == au);
                            assert(self.free_list()[i] == au);
                        }
                    } else {
                        assert(pushed[pushed.len() - 1] == au);
                    }
                }
            }
        }
        assert(post.live() =~= self.live().remove(obj as int));
        // The live counts of the slots.
        assert forall|t: int| #[trigger] post.slots().contains(t) implies 0 <= t <= usize::MAX
            && post_heap.owns(t as usize) && post_heap.metadata_of(t as usize)
            == post.live_in_slot(t).len() && post_heap.metadata_of(t as usize) >= 1 by {
            assert(self.slots().contains(t));
            assert(heap.owns(t as usize));
            assert(heap.covers(t as usize));
            assert(mid_heap.covers(t as usize));
            assert(mid_heap.allocated().contains(t as usize));
            if t != slot {
                assert(post.live_in_slot(t) =~= self.live_in_slot(t));
                lemma_slots_differ(t as usize, slot as usize);
                assert(mid_heap.metadata_of(t as usize) == heap.metadata_of(t as usize));
                assert(post_heap.metadata_of(t as usize) == mid_heap.metadata_of(t as usize));
                assert(post_heap.allocated().contains(t as usize));
            } else {
                assert(!released);
                assert(post.live_in_slot(t) =~= self.live_in_slot(t).remove(obj as int));
                assert(post_heap.metadata_of(t as usize) == mid_heap.metadata_of(t as usize));
                assert(post_heap.allocated().contains(t as usize));
            }
        }
    }
}

} // verus!
