//! The kernel heap: a chunk allocator that hands out 4 KiB slots, object
//! pools that carve slots into objects of one size, and an owned box on
//! top of the pools.

use vstd::prelude::*;

pub mod arena;
pub mod chunk;
pub mod grow;
pub mod owned;
pub mod pool;

pub use arena::Arena;
pub use owned::Box;

use chunk::{ChunkAlloc, CHUNK_ALIGN, CHUNK_SIZE};
use pool::{lemma_slots_differ, ObjectPool};

verus! {

/// The heap: the chunk allocator and the pool for objects of up to 256
/// bytes that is built on it.
pub struct Heap {
    chunks: ChunkAlloc,
    pool_256: ObjectPool<256>,
}

impl Heap {
    /// The chunk allocator.
    pub closed spec fn chunks(&self) -> ChunkAlloc {
        self.chunks
    }

    /// The pool for objects of up to 256 bytes.
    pub closed spec fn pool(&self) -> ObjectPool<256> {
        self.pool_256
    }

    /// The chunk allocator is well-formed, and the pool fits it.
    pub open spec fn wf(&self) -> bool {
        &&& self.chunks().wf()
        &&& self.pool().wf(&self.chunks())
    }

    /// Whether `slot_ptr` is the address of a slot that was handed out to
    /// a user of the heap other than the pool.
    pub open spec fn owns_slot(&self, slot_ptr: usize) -> bool {
        self.chunks().owns(slot_ptr) && !self.pool().slots().contains(slot_ptr as int)
    }

    /// Hands out a slot and returns its address, with the slot's metadata
    /// word zeroed: the lowest free slot of the first chunk that has one.
    /// Returns `None` if no chunk has a free slot.
    pub fn alloc_slot(&mut self) -> (r: Option<usize>)
        requires
            old(self).wf(),
        ensures
            final(self).wf(),
            final(self).pool() == old(self).pool(),
            old(self).chunks().same_chunks(&final(self).chunks()),
            match r {
                Some(ptr) => {
                    &&& !old(self).chunks().owns(ptr)
                    &&& final(self).owns_slot(ptr)
                    &&& final(self).chunks().allocated() == old(self).chunks().allocated().insert(
                        ptr,
                    )
                    &&& final(self).chunks().metadata_of(ptr) == 0
                    &&& old(self).chunks().same_metadata_but(&final(self).chunks(), ptr)
                },
                None => old(self).chunks().is_exhausted() && final(self).chunks().chunks() == old(
                    self,
                ).chunks().chunks(),
            },
    {
        let ghost pre = self.chunks;
        let r = self.chunks.alloc_slot();
        proof {
            match r {
                Some(ptr) => {
                    assert forall|t: int| #[trigger]
                        self.pool_256.slots().contains(t) implies self.chunks.owns(t as usize)
                        && self.chunks.metadata_of(t as usize) == pre.metadata_of(t as usize) by {
                        assert(pre.owns(t as usize));
                        assert(self.chunks.allocated().contains(t as usize));
                        lemma_slots_differ(t as usize, ptr);
                    }
                },
                None => {
                    self.pool_256.lemma_same_heap(&pre, &self.chunks);
                },
            }
        }
        r
    }

    /// Takes back a slot that was handed out by `alloc_slot`.
    pub fn free_slot(&mut self, slot_ptr: usize)
        requires
            old(self).wf(),
            old(self).owns_slot(slot_ptr),
        ensures
            final(self).wf(),
            final(self).pool() == old(self).pool(),
            old(self).chunks().same_chunks(&final(self).chunks()),
            final(self).chunks().allocated() == old(self).chunks().allocated().remove(slot_ptr),
    {
        let ghost pre = self.chunks;
        self.chunks.free_slot(slot_ptr);
        proof {
            assert forall|t: int| #[trigger]
                self.pool_256.slots().contains(t) implies self.chunks.owns(t as usize)
                && self.chunks.metadata_of(t as usize) == pre.metadata_of(t as usize) by {
                assert(pre.owns(t as usize));
                assert(self.chunks.allocated().contains(t as usize));
            }
        }
    }

    /// Replaces the metadata word of the slot, handed out by `alloc_slot`,
    /// that holds the byte at `addr_in_slot` by what `f` makes of it, and
    /// returns the new word.
    pub fn update_slot_metadata<F: FnOnce(u32) -> u32>(&mut self, addr_in_slot: usize, f: F) -> (word:
        u32)
        requires
            old(self).wf(),
            old(self).owns_slot(pool::slot_base_of(addr_in_slot as int) as usize),
            f.requires((old(self).chunks().metadata_of(addr_in_slot),)),
        ensures
            final(self).wf(),
            final(self).pool() == old(self).pool(),
            old(self).chunks().same_chunks(&final(self).chunks()),
            f.ensures((old(self).chunks().metadata_of(addr_in_slot),), word),
            final(self).chunks().metadata_of(addr_in_slot) == word,
            old(self).chunks().same_metadata_but(&final(self).chunks(), addr_in_slot),
            final(self).chunks().allocated() == old(self).chunks().allocated(),
    {
        let ghost pre = self.chunks;
        proof {
            pool::lemma_slot_of_address(addr_in_slot);
        }
        let word = self.chunks.update_slot_metadata(addr_in_slot, f);
        proof {
            assert forall|t: int| #[trigger]
                self.pool_256.slots().contains(t) implies self.chunks.owns(t as usize)
                && self.chunks.metadata_of(t as usize) == pre.metadata_of(t as usize) by {
                assert(pre.owns(t as usize));
                assert(self.chunks.allocated().contains(t as usize));
                lemma_slots_differ(t as usize, pool::slot_base_of(addr_in_slot as int) as usize);
            }
        }
        word
    }

    /// Links a fresh chunk at address `base` to the end of the chunk list.
    pub fn add_chunk(&mut self, base: usize, num_free_chunks_after: usize)
        requires
            old(self).wf(),
            base % CHUNK_ALIGN == 0,
            base + CHUNK_SIZE <= usize::MAX,
            !old(self).chunks().has_chunk(base as int),
        ensures
            final(self).wf(),
            final(self).pool() == old(self).pool(),
            final(self).chunks().chunks().len() == old(self).chunks().chunks().len() + 1,
            final(self).chunks().chunks().last().base() == base,
            final(self).chunks().chunks().last().occupied_count() == 0,
            final(self).chunks().allocated() == old(self).chunks().allocated(),
    {
        let ghost pre = self.chunks;
        self.chunks.add_chunk(base, num_free_chunks_after);
        proof {
            assert forall|t: int| #[trigger]
                self.pool_256.slots().contains(t) implies self.chunks.owns(t as usize)
                && self.chunks.metadata_of(t as usize) == pre.metadata_of(t as usize) by {
                assert(pre.owns(t as usize));
                assert(self.chunks.allocated().contains(t as usize));
            }
        }
    }

    /// Whether an address is the base of one of the heap's chunks.
    pub fn has_chunk(&self, base: usize) -> (r: bool)
        requires
            self.wf(),
        ensures
            r == self.chunks().has_chunk(base as int),
    {
        self.chunks.find_chunk(base).is_some()
    }

    /// Number of chunks of the heap.
    pub fn num_chunks(&self) -> (n: usize)
        ensures
            n == self.chunks().chunks().len(),
    {
        self.chunks.num_chunks()
    }

    /// Number of occupied slots of the chunk at position `idx` of the chunk
    /// list, the header's slot not included.
    pub fn occupied_slots(&self, idx: usize) -> (n: u16)
        requires
            idx < self.chunks().chunks().len(),
        ensures
            n == self.chunks().chunks()[idx as int].occupied_count(),
    {
        self.chunks.occupied_slots(idx)
    }

    /// The metadata word of the slot that holds the byte at `addr_in_slot`.
    pub fn slot_metadata(&self, addr_in_slot: usize) -> (word: u32)
        requires
            self.wf(),
            self.chunks().covers(addr_in_slot),
        ensures
            word == self.chunks().metadata_of(addr_in_slot),
    {
        self.chunks.slot_metadata(addr_in_slot)
    }

    /// Allocates an object of 256 bytes from the pool and returns its
    /// address. Returns `None` if the pool has no free object and no chunk
    /// has a free slot.
    pub fn alloc_object(&mut self) -> (r: Option<usize>)
        requires
            old(self).wf(),
        ensures
            final(self).wf(),
            old(self).chunks().same_chunks(&final(self).chunks()),
            match r {
                Some(obj) => {
                    &&& !old(self).pool().is_live(obj as int)
                    &&& final(self).pool().live() == old(self).pool().live().insert(obj as int)
                    &&& final(self).pool().live_objects() == old(self).pool().live_objects() + 1
                },
                None => {
                    &&& old(self).pool().free_list().len() == 0
                    &&& old(self).chunks().is_exhausted()
                    &&& final(self).chunks().chunks() == old(self).chunks().chunks()
                    &&& final(self).pool().live() == old(self).pool().live()
                },
            },
    {
        let ghost pre = *self;
        let r = self.pool_256.allocate(&mut self.chunks);
        proof {
            if r.is_none() {
                assert(self.pool_256.live() =~= pre.pool_256.live());
            }
        }
        r
    }

    /// Gives an object that `alloc_object` returned back to the pool.
    pub fn free_object(&mut self, obj: usize)
        requires
            old(self).wf(),
            old(self).pool().is_live(obj as int),
        ensures
            final(self).wf(),
            old(self).chunks().same_chunks(&final(self).chunks()),
            final(self).pool().live() == old(self).pool().live().remove(obj as int),
            final(self).pool().live_objects() + 1 == old(self).pool().live_objects(),
    {
        self.pool_256.free(&mut self.chunks, obj);
    }

    /// Number of objects of the pool that are handed out.
    pub open spec fn live_objects(&self) -> nat {
        self.pool().live_objects()
    }
}

/// Sets the heap up on the bootstrap chunk, which lies between the two
/// addresses: no slot is handed out, and the pool holds no slot.
pub fn init(bootstrap_start: usize, bootstrap_end: usize) -> (heap: Heap)
    requires
        bootstrap_start % CHUNK_ALIGN == 0,
        bootstrap_end - bootstrap_start == CHUNK_SIZE,
    ensures
        heap.wf(),
        heap.chunks().chunks().len() == 1,
        heap.chunks().chunks()[0].base() == bootstrap_start,
        heap.chunks().chunks()[0].free_chunks_after() == (usize::MAX - bootstrap_start)
            / (CHUNK_SIZE as int) - 1,
        heap.chunks().allocated() == Set::<usize>::empty(),
        heap.pool().live_objects() == 0,
{
    let total_heap_chunks = (usize::MAX - bootstrap_start) / CHUNK_SIZE;
    let free_chunks_after_boot_chunk = total_heap_chunks - 1;
    let chunks = ChunkAlloc::new(bootstrap_start, free_chunks_after_boot_chunk);
    Heap { chunks, pool_256: ObjectPool::new() }
}

} // verus!
