//! Heap chunk allocator.
//!
//! This is the basis of the heap. Its two units are:
//! - chunks: 2 MiB regions that the heap obtains from the page allocator;
//! - slots: 4 KiB sections of a chunk, each with a metadata word.
//!
//! Slot 0 of a chunk is taken by the chunk's header; the other 511 slots
//! are handed out. The header's occupancy bitmap and counter belong to the
//! chunk allocator, while the metadata word of a slot belongs to whoever
//! holds the slot.

use crate::mem::bits::{
    bit_set, lemma_clear_bit, lemma_full_and_empty, lemma_or_bit, lemma_trailing_ones,
};
use vstd::prelude::*;

verus! {

pub const CHUNK_ALIGN: usize = 0x200_000;

pub const CHUNK_SIZE: usize = 0x200_000;

pub const SLOT_ALIGN: usize = 0x1000;

pub const SLOT_SIZE: usize = 0x1000;

/// Number of slots in a chunk, the header's slot included.
pub const SLOTS_PER_CHUNK: usize = 512;

/// Address of the chunk that holds the byte at `addr`.
pub open spec fn chunk_base_of(addr: int) -> int {
    (addr / 0x200_000) * 0x200_000
}

/// Index, within its chunk, of the slot that holds the byte at `addr`.
pub open spec fn slot_index_of(addr: int) -> int {
    (addr % 0x200_000) / 0x1000
}

/// Header placed at the start of each heap chunk, in the chunk's slot 0.
pub struct ChunkHeader {
    base: usize,
    slot_bitmap: [u64; 8],
    num_occupied_slots: u16,
    slot_metadata: Vec<u32>,
    num_free_chunks_after: usize,
}

impl ChunkHeader {
    /// Address of the chunk, which is the address of its header.
    pub closed spec fn base(&self) -> int {
        self.base as int
    }

    /// The occupancy bitmap: bit `i % 64` of word `i / 64` stands for slot `i`.
    pub closed spec fn bitmap(&self) -> Seq<u64> {
        self.slot_bitmap@
    }

    /// The counter of occupied slots, the header's slot not included.
    pub closed spec fn occupied_count(&self) -> nat {
        self.num_occupied_slots as nat
    }

    /// The metadata words: word `i` belongs to slot `i + 1`.
    pub closed spec fn metadata_words(&self) -> Seq<u32> {
        self.slot_metadata@
    }

    /// Number of unmapped chunks that follow this chunk in the address space.
    pub closed spec fn free_chunks_after(&self) -> nat {
        self.num_free_chunks_after as nat
    }

    /// Whether slot `slot` is marked as occupied.
    pub open spec fn slot_taken(&self, slot: int) -> bool {
        bit_set(self.bitmap()[slot / 64], slot % 64)
    }

    /// The set of slots marked as occupied.
    pub open spec fn taken_slots(&self) -> Set<int> {
        Set::new(|s: int| 0 <= s < SLOTS_PER_CHUNK && self.slot_taken(s))
    }

    /// Whether every slot is occupied.
    pub open spec fn is_full(&self) -> bool {
        forall|s: int| 0 <= s < SLOTS_PER_CHUNK ==> self.slot_taken(s)
    }

    /// The metadata word of slot `slot`.
    pub open spec fn metadata(&self, slot: int) -> u32 {
        self.metadata_words()[slot - 1]
    }

    /// The chunk is aligned, the header's slot is marked as occupied, and
    /// the counter of occupied slots is the number of set bits of the
    /// bitmap minus one, for the header's slot.
    pub open spec fn wf(&self) -> bool {
        &&& self.base() % (CHUNK_ALIGN as int) == 0
        &&& self.base() + CHUNK_SIZE <= usize::MAX
        &&& self.bitmap().len() == 8
        &&& self.metadata_words().len() == SLOTS_PER_CHUNK - 1
        &&& self.slot_taken(0)
        &&& self.occupied_count() + 1 == self.taken_slots().len()
    }

    /// `post` is `self` after slot `slot`, free until then, was handed out
    /// with its metadata word zeroed.
    pub open spec fn hands_out(&self, post: &ChunkHeader, slot: int) -> bool {
        &&& 1 <= slot < SLOTS_PER_CHUNK
        &&& !self.slot_taken(slot)
        &&& forall|s: int| 0 <= s < slot ==> self.slot_taken(s)
        &&& post.base() == self.base()
        &&& post.free_chunks_after() == self.free_chunks_after()
        &&& post.taken_slots() == self.taken_slots().insert(slot)
        &&& post.occupied_count() == self.occupied_count() + 1
        &&& post.metadata(slot) == 0
        &&& forall|s: int| 1 <= s < SLOTS_PER_CHUNK && s != slot ==> post.metadata(s) == self.metadata(s)
    }

    /// `post` is `self` after the occupied slot `slot` was taken back.
    pub open spec fn takes_back(&self, post: &ChunkHeader, slot: int) -> bool {
        &&& 1 <= slot < SLOTS_PER_CHUNK
        &&& self.slot_taken(slot)
        &&& post.base() == self.base()
        &&& post.free_chunks_after() == self.free_chunks_after()
        &&& post.taken_slots() == self.taken_slots().remove(slot)
        &&& post.occupied_count() + 1 == self.occupied_count()
        &&& post.metadata_words() == self.metadata_words()
    }

    /// The set of occupied slots is finite and holds at most 512 slots.
    pub proof fn lemma_taken_finite(&self)
        ensures
            self.taken_slots().finite(),
            self.taken_slots().len() <= SLOTS_PER_CHUNK,
    {
        let all = vstd::set_lib::set_int_range(0, SLOTS_PER_CHUNK as int);
        vstd::set_lib::lemma_int_range(0, SLOTS_PER_CHUNK as int);
        assert(self.taken_slots().subset_of(all));
        vstd::set_lib::lemma_len_subset(self.taken_slots(), all);
    }

    /// A full chunk has 511 occupied slots.
    pub proof fn lemma_full_count(&self)
        requires
            self.wf(),
            self.is_full(),
        ensures
            self.occupied_count() == SLOTS_PER_CHUNK - 1,
    {
        let all = vstd::set_lib::set_int_range(0, SLOTS_PER_CHUNK as int);
        vstd::set_lib::lemma_int_range(0, SLOTS_PER_CHUNK as int);
        assert(self.taken_slots() =~= all);
    }

    /// The header of a fresh chunk at address `base`: no slot but the
    /// header's own is occupied, and all metadata words are zero.
    pub fn new(base: usize, num_free_chunks_after: usize) -> (header: Self)
        requires
            base % CHUNK_ALIGN == 0,
            base + CHUNK_SIZE <= usize::MAX,
        ensures
            header.wf(),
            header.base() == base,
            header.free_chunks_after() == num_free_chunks_after,
            header.occupied_count() == 0,
            header.taken_slots() == set![0int],
            forall|s: int| 1 <= s < SLOTS_PER_CHUNK ==> header.metadata(s) == 0,
    {
        let header = ChunkHeader {
            base,
            slot_bitmap: [1u64, 0, 0, 0, 0, 0, 0, 0],
            num_occupied_slots: 0,
            slot_metadata: vec![0u32; SLOTS_PER_CHUNK - 1],
            num_free_chunks_after,
        };
        proof {
            assert forall|s: int| 0 <= s < SLOTS_PER_CHUNK implies (header.slot_taken(s) <==> s
                == 0) by {
                lemma_full_and_empty((s % 64) as u64);
                if s / 64 == 0 {
                    let b = (s % 64) as u64;
                    assert(((1u64 >> b) & 1u64 == 1u64) <==> b == 0) by (bit_vector)
                        requires
                            b < 64,
                    ;
                }
            }
            assert(header.taken_slots() =~= set![0int]);
        }
        header
    }

    /// Get the address of a slot within this chunk.
    pub fn slot_ptr(&self, slot_idx: usize) -> (ptr: usize)
        requires
            self.wf(),
            slot_idx < SLOTS_PER_CHUNK,
        ensures
            ptr == self.base() + slot_idx * SLOT_SIZE,
            chunk_base_of(ptr as int) == self.base(),
            slot_index_of(ptr as int) == slot_idx,
            ptr % SLOT_ALIGN == 0,
    {
        self.base + slot_idx * SLOT_SIZE
    }

    /// Hands out the lowest free slot of the chunk and returns its address.
    /// Returns `None` if every slot is occupied.
    #[verifier::rlimit(30)]
    pub fn alloc_slot(&mut self) -> (r: Option<usize>)
        requires
            old(self).wf(),
        ensures
            final(self).wf(),
            match r {
                Some(ptr) => {
                    &&& chunk_base_of(ptr as int) == old(self).base()
                    &&& ptr % SLOT_ALIGN == 0
                    &&& old(self).hands_out(final(self), slot_index_of(ptr as int))
                },
                None => old(self).is_full() && *final(self) == *old(self),
            },
    {
        let ghost pre = *self;
        let mut word_idx: usize = 0;
        while word_idx < 8
            invariant
                word_idx <= 8,
                *self == pre,
                pre == *old(self),
                self.wf(),
                forall|s: int| 0 <= s < word_idx * 64 ==> self.slot_taken(s),
            decreases 8 - word_idx,
        {
            let word = self.slot_bitmap[word_idx];
            let bit_idx = word.trailing_ones() as usize;
            proof {
                lemma_trailing_ones(word);
            }
            // When bit_idx == 64, the entire word is full of 1s, and no slots are free
            if bit_idx != 64 {
                // Free slot found, mark as allocated and calculate its `slot_idx`
                let slot_idx = word_idx * 64 + bit_idx;
                proof {
                    assert(slot_idx / 64 == word_idx && slot_idx % 64 == bit_idx);
                    assert(!pre.slot_taken(slot_idx as int));
                    assert forall|s: int| 0 <= s < slot_idx implies pre.slot_taken(s) by {
                        if s >= word_idx * 64 {
                            assert(s / 64 == word_idx as int);
                        }
                    }
                    pre.lemma_taken_finite();
                }
                self.slot_bitmap[word_idx] = word | (1u64 << bit_idx);
                self.slot_metadata.set(slot_idx - 1, 0);
                // Increment counter
                self.num_occupied_slots = self.num_occupied_slots + 1;
                proof {
                    assert forall|s: int| 0 <= s < SLOTS_PER_CHUNK implies (self.slot_taken(s) <==> (
                    s == slot_idx || pre.slot_taken(s))) by {
                        if s / 64 == word_idx as int {
                            lemma_or_bit(word, bit_idx as u64, (s % 64) as u64);
                        }
                    }
                    assert(self.taken_slots() =~= pre.taken_slots().insert(slot_idx as int));
                }
                let ptr = self.slot_ptr(slot_idx);
                proof {
                    assert(slot_idx >= 1) by {
                        if slot_idx == 0 {
                            assert(pre.slot_taken(0));
                        }
                    }
                    assert(self.metadata(slot_idx as int) == 0);
                    assert(self.occupied_count() == pre.occupied_count() + 1);
                }
                return Some(ptr);
            }
            proof {
                assert forall|s: int| 0 <= s < (word_idx + 1) * 64 implies self.slot_taken(s) by {
                    if s >= word_idx * 64 {
                        assert(s / 64 == word_idx as int);
                        lemma_full_and_empty((s % 64) as u64);
                    }
                }
            }
            word_idx = word_idx + 1;
        }
        None
    }

    /// Takes back the occupied slot `slot_idx`.
    pub fn free_slot(&mut self, slot_idx: usize)
        requires
            old(self).wf(),
            1 <= slot_idx < SLOTS_PER_CHUNK,
            old(self).slot_taken(slot_idx as int),
        ensures
            final(self).wf(),
            old(self).takes_back(final(self), slot_idx as int),
    {
        let ghost pre = *self;
        let word_idx = slot_idx / 64;
        let bit_idx = slot_idx % 64;
        let word = self.slot_bitmap[word_idx];
        proof {
            pre.lemma_taken_finite();
            assert(pre.taken_slots().contains(slot_idx as int));
            assert(pre.taken_slots().contains(0));
            assert(pre.taken_slots().remove(slot_idx as int).contains(0));
            assert(pre.taken_slots().len() >= 2) by {
                assert(pre.taken_slots().remove(slot_idx as int).len() >= 1);
            }
        }
        self.slot_bitmap[word_idx] = word & !(1u64 << bit_idx);
        self.num_occupied_slots = self.num_occupied_slots - 1;
        proof {
            assert forall|s: int| 0 <= s < SLOTS_PER_CHUNK implies (self.slot_taken(s) <==> (s
                != slot_idx && pre.slot_taken(s))) by {
                if s / 64 == word_idx as int {
                    lemma_clear_bit(word, bit_idx as u64, (s % 64) as u64);
                }
            }
            assert(self.taken_slots() =~= pre.taken_slots().remove(slot_idx as int));
        }
    }

    /// Number of occupied slots, the header's slot not included.
    pub fn num_occupied_slots(&self) -> (n: u16)
        ensures
            n == self.occupied_count(),
    {
        self.num_occupied_slots
    }

    /// Address of the chunk.
    pub fn base_addr(&self) -> (base: usize)
        ensures
            base == self.base(),
    {
        self.base
    }

    /// Word `idx` of the occupancy bitmap.
    pub fn bitmap_word(&self, idx: usize) -> (w: u64)
        requires
            self.wf(),
            idx < 8,
        ensures
            w == self.bitmap()[idx as int],
    {
        self.slot_bitmap[idx]
    }
}

/// Splits an address into the address of its chunk and the index of its
/// slot within the chunk.
pub fn slot_info(ptr: usize) -> (r: (usize, usize))
    ensures
        r.0 == chunk_base_of(ptr as int),
        r.1 == slot_index_of(ptr as int),
        r.1 < SLOTS_PER_CHUNK,
        r.0 % CHUNK_ALIGN == 0,
{
    // The offset of the address within its chunk
    let offset = ptr % CHUNK_ALIGN;
    // Round down the address to the nearest chunk aligned address,
    // this address's chunk header is there
    let chunk_addr = ptr - offset;
    // The slot's index is the offset in units of slots
    let slot_idx = offset / SLOT_SIZE;
    (chunk_addr, slot_idx)
}

/// The chunk allocator: the list of the heap's chunks, in the order in
/// which they are searched for a free slot.
pub struct ChunkAlloc {
    chunks: Vec<ChunkHeader>,
}

impl ChunkAlloc {
    /// The headers of the chunks, in list order.
    pub closed spec fn chunks(&self) -> Seq<ChunkHeader> {
        self.chunks@
    }

    /// Whether the list holds a chunk at address `base`.
    pub open spec fn has_chunk(&self, base: int) -> bool {
        exists|i: int| 0 <= i < self.chunks().len() && (#[trigger] self.chunks()[i]).base() == base
    }

    /// Position in the list of the chunk at address `base`.
    pub open spec fn chunk_at(&self, base: int) -> int {
        choose|i: int| 0 <= i < self.chunks().len() && (#[trigger] self.chunks()[i]).base() == base
    }

    /// Every chunk is well-formed, and no two chunks have the same address.
    pub open spec fn wf(&self) -> bool {
        &&& forall|i: int| 0 <= i < self.chunks().len() ==> (#[trigger] self.chunks()[i]).wf()
        &&& forall|i: int, j: int|
            0 <= i < j < self.chunks().len() ==> (#[trigger] self.chunks()[i]).base() != (
            #[trigger] self.chunks()[j]).base()
    }

    /// Whether the byte at `addr` lies in a slot, other than a header's
    /// slot, of a chunk of the list.
    pub open spec fn covers(&self, addr: usize) -> bool {
        &&& slot_index_of(addr as int) >= 1
        &&& self.has_chunk(chunk_base_of(addr as int))
    }

    /// Whether `slot_ptr` is the address of a slot that is handed out.
    pub open spec fn owns(&self, slot_ptr: usize) -> bool {
        &&& slot_ptr % SLOT_ALIGN == 0
        &&& self.covers(slot_ptr)
        &&& self.chunks()[self.chunk_at(chunk_base_of(slot_ptr as int))].slot_taken(
            slot_index_of(slot_ptr as int),
        )
    }

    /// The addresses of the slots that are handed out.
    pub open spec fn allocated(&self) -> Set<usize> {
        Set::new(|p: usize| self.owns(p))
    }

    /// The metadata word of the slot that holds the byte at `addr`.
    pub open spec fn metadata_of(&self, addr: usize) -> u32 {
        self.chunks()[self.chunk_at(chunk_base_of(addr as int))].metadata(
            slot_index_of(addr as int),
        )
    }

    /// Whether no chunk has a free slot.
    pub open spec fn is_exhausted(&self) -> bool {
        forall|i: int| 0 <= i < self.chunks().len() ==> (#[trigger] self.chunks()[i]).is_full()
    }

    /// `post` has the chunks of `self`, at the same addresses.
    pub open spec fn same_chunks(&self, post: &ChunkAlloc) -> bool {
        &&& post.chunks().len() == self.chunks().len()
        &&& forall|i: int|
            0 <= i < self.chunks().len() ==> (#[trigger] post.chunks()[i]).base()
                == self.chunks()[i].base()
    }

    /// `post` has the metadata words of `self`, but for the word of the slot
    /// that holds the byte at `addr`.
    pub open spec fn same_metadata_but(&self, post: &ChunkAlloc, addr: usize) -> bool {
        forall|q: usize|
            self.covers(q) && (chunk_base_of(q as int) != chunk_base_of(addr as int)
                || slot_index_of(q as int) != slot_index_of(addr as int))
                ==> #[trigger] post.metadata_of(q) == self.metadata_of(q)
    }

    /// The chunk at position `i` is the only chunk at its address.
    pub proof fn lemma_chunk_at(&self, i: int)
        requires
            self.wf(),
            0 <= i < self.chunks().len(),
        ensures
            self.has_chunk(self.chunks()[i].base()),
            self.chunk_at(self.chunks()[i].base()) == i,
    {
        let base = self.chunks()[i].base();
        let c = self.chunk_at(base);
        assert(self.chunks()[c].base() == base);
        if c < i {
            assert(self.chunks()[c].base() != self.chunks()[i].base());
        } else if c > i {
            assert(self.chunks()[i].base() != self.chunks()[c].base());
        }
    }

    /// A list with the same chunks at the same addresses finds each chunk
    /// where the other finds it.
    pub proof fn lemma_same_chunks(&self, post: &ChunkAlloc)
        requires
            self.wf(),
            self.same_chunks(post),
        ensures
            forall|base: int| self.has_chunk(base) <==> post.has_chunk(base),
            forall|base: int| self.has_chunk(base) ==> self.chunk_at(base) == post.chunk_at(base),
    {
        assert forall|base: int| self.has_chunk(base) implies post.has_chunk(base)
            && self.chunk_at(base) == post.chunk_at(base) by {
            let c = self.chunk_at(base);
            assert(post.chunks()[c].base() == base);
            let d = post.chunk_at(base);
            assert(post.chunks()[d].base() == base);
            assert(self.chunks()[d].base() == base);
            if c < d {
                assert(self.chunks()[c].base() != self.chunks()[d].base());
            } else if d < c {
                assert(self.chunks()[d].base() != self.chunks()[c].base());
            }
        }
        assert forall|base: int| post.has_chunk(base) implies self.has_chunk(base) by {
            let d = post.chunk_at(base);
            assert(self.chunks()[d].base() == base);
        }
    }

    /// A slot that is handed out ends within the address space.
    pub proof fn lemma_slot_fits(&self, slot: usize)
        requires
            self.wf(),
            self.owns(slot),
        ensures
            slot + 4096 <= usize::MAX,
    {
        let base = chunk_base_of(slot as int);
        let c = self.chunk_at(base);
        assert(self.chunks()[c].wf());
        assert((slot / 0x200_000) * 0x200_000 + 0x200_000 >= slot + 0x1000 || slot % 0x1000 != 0)
            by (bit_vector);
    }

    /// A chunk allocator with one chunk, at address `bootstrap_base`.
    pub fn new(bootstrap_base: usize, num_free_chunks_after: usize) -> (heap: Self)
        requires
            bootstrap_base % CHUNK_ALIGN == 0,
            bootstrap_base + CHUNK_SIZE <= usize::MAX,
        ensures
            heap.wf(),
            heap.chunks().len() == 1,
            heap.chunks()[0].base() == bootstrap_base,
            heap.chunks()[0].occupied_count() == 0,
            heap.chunks()[0].free_chunks_after() == num_free_chunks_after,
            heap.allocated() == Set::<usize>::empty(),
    {
        let mut chunks: Vec<ChunkHeader> = Vec::new();
        chunks.push(ChunkHeader::new(bootstrap_base, num_free_chunks_after));
        let heap = ChunkAlloc { chunks };
        proof {
            assert forall|p: usize| !heap.owns(p) by {
                if heap.covers(p) {
                    let c = heap.chunk_at(chunk_base_of(p as int));
                    assert(c == 0);
                    assert(heap.chunks()[0].taken_slots().contains(slot_index_of(p as int)) == (
                    slot_index_of(p as int) == 0));
                }
            }
            assert(heap.allocated() =~= Set::<usize>::empty());
        }
        heap
    }

    /// Number of chunks in the list.
    pub fn num_chunks(&self) -> (n: usize)
        ensures
            n == self.chunks().len(),
    {
        self.chunks.len()
    }

    /// Number of occupied slots of the chunk at position `idx` of the list,
    /// the header's slot not included.
    pub fn occupied_slots(&self, idx: usize) -> (n: u16)
        requires
            idx < self.chunks().len(),
        ensures
            n == self.chunks()[idx as int].occupied_count(),
    {
        self.chunks[idx].num_occupied_slots()
    }

    /// Position in the list of the chunk at address `base`, if there is one.
    pub fn find_chunk(&self, base: usize) -> (r: Option<usize>)
        requires
            self.wf(),
        ensures
            match r {
                Some(c) => self.has_chunk(base as int) && self.chunk_at(base as int) == c && c
                    < self.chunks().len(),
                None => !self.has_chunk(base as int),
            },
    {
        let mut i: usize = 0;
        while i < self.chunks.len()
            invariant
                i <= self.chunks().len(),
                self.wf(),
                forall|j: int| 0 <= j < i ==> (#[trigger] self.chunks()[j]).base() != base,
            decreases self.chunks().len() - i,
        {
            if self.chunks[i].base_addr() == base {
                proof {
                    self.lemma_chunk_at(i as int);
                }
                return Some(i);
            }
            i = i + 1;
        }
        None
    }

    /// Links a fresh chunk at address `base` to the end of the list.
    pub fn add_chunk(&mut self, base: usize, num_free_chunks_after: usize)
        requires
            old(self).wf(),
            base % CHUNK_ALIGN == 0,
            base + CHUNK_SIZE <= usize::MAX,
            !old(self).has_chunk(base as int),
        ensures
            final(self).wf(),
            final(self).chunks().len() == old(self).chunks().len() + 1,
            final(self).chunks().last().base() == base,
            final(self).chunks().last().occupied_count() == 0,
            forall|i: int|
                0 <= i < old(self).chunks().len() ==> #[trigger] final(self).chunks()[i] == old(
                    self,
                ).chunks()[i],
            final(self).allocated() == old(self).allocated(),
            forall|q: usize| old(self).covers(q) ==> final(self).metadata_of(q) == old(
                self,
            ).metadata_of(q),
    {
        let ghost pre = *self;
        let header = ChunkHeader::new(base, num_free_chunks_after);
        self.chunks.push(header);
        proof {
            let n = pre.chunks().len() as int;
            assert forall|i: int, j: int| 0 <= i < j < self.chunks().len() implies (
            #[trigger] self.chunks()[i]).base() != (#[trigger] self.chunks()[j]).base() by {
                if j < n {
                    assert(pre.chunks()[i].base() != pre.chunks()[j].base());
                } else {
                    assert(pre.chunks()[i].base() != base);
                }
            }
            assert forall|i: int| 0 <= i < self.chunks().len() implies (
            #[trigger] self.chunks()[i]).wf() by {
                if i < n {
                    assert(pre.chunks()[i].wf());
                }
            }
            assert forall|b: int| pre.has_chunk(b) implies self.has_chunk(b) && self.chunk_at(b)
                == pre.chunk_at(b) by {
                let c = pre.chunk_at(b);
                assert(self.chunks()[c] == pre.chunks()[c]);
                self.lemma_chunk_at(c);
            }
            self.lemma_chunk_at(n);
            assert forall|p: usize| self.owns(p) <==> pre.owns(p) by {
                let b = chunk_base_of(p as int);
                if self.covers(p) && !pre.has_chunk(b) {
                    let c = self.chunk_at(b);
                    assert(self.chunks()[c].base() == b);
                    if c < n {
                        assert(pre.chunks()[c].base() == b);
                    }
                    assert(c == n);
                    assert(header.taken_slots().contains(slot_index_of(p as int)) == (
                    slot_index_of(p as int) == 0));
                }
            }
            assert(self.allocated() =~= pre.allocated());
        }
    }

    /// Hands out a slot and returns its address: the lowest free slot of
    /// the first chunk of the list that has a free slot. The slot's
    /// metadata word is zeroed. Returns `None` if no chunk has a free slot.
    pub fn alloc_slot(&mut self) -> (r: Option<usize>)
        requires
            old(self).wf(),
        ensures
            final(self).wf(),
            old(self).same_chunks(final(self)),
            match r {
                Some(ptr) => {
                    &&& !old(self).owns(ptr)
                    &&& final(self).owns(ptr)
                    &&& final(self).allocated() == old(self).allocated().insert(ptr)
                    &&& final(self).metadata_of(ptr) == 0
                    &&& old(self).same_metadata_but(final(self), ptr)
                    &&& forall|j: int|
                        0 <= j < old(self).chunk_at(chunk_base_of(ptr as int)) ==> (#[trigger] old(
                            self,
                        ).chunks()[j]).is_full()
                    &&& forall|s: int|
                        0 <= s < slot_index_of(ptr as int) ==> old(self).chunks()[old(
                            self,
                        ).chunk_at(chunk_base_of(ptr as int))].slot_taken(s)
                },
                None => old(self).is_exhausted() && final(self).chunks() == old(self).chunks(),
            },
    {
        let ghost pre = *self;
        let mut i: usize = 0;
        while i < self.chunks.len()
            invariant
                i <= self.chunks().len(),
                self.chunks() == pre.chunks(),
                pre == *old(self),
                pre.wf(),
                forall|j: int| 0 <= j < i ==> (#[trigger] pre.chunks()[j]).is_full(),
            decreases self.chunks().len() - i,
        {
            assert(self.chunks()[i as int].wf());
            let chunk = &mut self.chunks[i];
            match chunk.alloc_slot() {
                Some(ptr) => {
                    proof {
                        pre.lemma_alloc_in_chunk(self, i as int, ptr);
                    }
                    return Some(ptr);
                },
                None => {
                    assert(self.chunks() =~= pre.chunks());
                },
            }
            i = i + 1;
        }
        None
    }

    /// A list one of whose chunks handed out a slot has one more slot
    /// handed out, and the metadata words it had but for that slot's.
    pub proof fn lemma_alloc_in_chunk(&self, post: &ChunkAlloc, i: int, ptr: usize)
        requires
            self.wf(),
            0 <= i < self.chunks().len(),
            post.chunks() == self.chunks().update(i, post.chunks()[i]),
            post.chunks()[i].wf(),
            chunk_base_of(ptr as int) == self.chunks()[i].base(),
            ptr % SLOT_ALIGN == 0,
            self.chunks()[i].hands_out(&post.chunks()[i], slot_index_of(ptr as int)),
        ensures
            post.wf(),
            self.same_chunks(post),
            self.chunk_at(chunk_base_of(ptr as int)) == i,
            !self.owns(ptr),
            post.owns(ptr),
            post.allocated() == self.allocated().insert(ptr),
            post.metadata_of(ptr) == 0,
            self.same_metadata_but(post, ptr),
    {
        let slot = slot_index_of(ptr as int);
        assert forall|a: int, b: int| 0 <= a < b < post.chunks().len() implies (
        #[trigger] post.chunks()[a]).base() != (#[trigger] post.chunks()[b]).base() by {
            assert(self.chunks()[a].base() != self.chunks()[b].base());
        }
        assert forall|a: int| 0 <= a < post.chunks().len() implies (#[trigger] post.chunks()[a]).wf() by {
            if a != i {
                assert(self.chunks()[a].wf());
            }
        }
        self.lemma_same_chunks(post);
        self.lemma_chunk_at(i);
        assert(self.chunks()[i].taken_slots().insert(slot).contains(slot));
        assert forall|p: usize| post.owns(p) <==> (p == ptr || self.owns(p)) by {
            if self.covers(p) {
                let c = self.chunk_at(chunk_base_of(p as int));
                assert(self.chunks()[c].base() == chunk_base_of(p as int));
                let s = slot_index_of(p as int);
                if c == i {
                    assert(post.chunks()[i].taken_slots().contains(s) == (s == slot
                        || self.chunks()[i].taken_slots().contains(s)));
                    if s == slot && p % SLOT_ALIGN == 0 {
                        lemma_slot_address(p, ptr);
                    }
                } else {
                    assert(post.chunks()[c] == self.chunks()[c]);
                }
            }
        }
        assert(post.allocated() =~= self.allocated().insert(ptr));
        assert forall|q: usize|
            self.covers(q) && (chunk_base_of(q as int) != chunk_base_of(ptr as int)
                || slot_index_of(q as int) != slot) implies #[trigger] post.metadata_of(q)
            == self.metadata_of(q) by {
            let c = self.chunk_at(chunk_base_of(q as int));
            assert(self.chunks()[c].base() == chunk_base_of(q as int));
            if c != i {
                assert(post.chunks()[c] == self.chunks()[c]);
            }
        }
    }

    /// Takes back the slot at address `slot_ptr`.
    pub fn free_slot(&mut self, slot_ptr: usize)
        requires
            old(self).wf(),
            old(self).owns(slot_ptr),
        ensures
            final(self).wf(),
            old(self).same_chunks(final(self)),
            final(self).allocated() == old(self).allocated().remove(slot_ptr),
            forall|q: usize| old(self).covers(q) ==> #[trigger] final(self).metadata_of(q) == old(
                self,
            ).metadata_of(q),
    {
        let ghost pre = *self;
        let (chunk_base, slot_idx) = slot_info(slot_ptr);
        let found = self.find_chunk(chunk_base);
        let c = found.unwrap();
        assert(self.chunks()[c as int].wf());
        let chunk = &mut self.chunks[c];
        chunk.free_slot(slot_idx);
        proof {
            let post = &*self;
            assert forall|a: int, b: int| 0 <= a < b < post.chunks().len() implies (
            #[trigger] post.chunks()[a]).base() != (#[trigger] post.chunks()[b]).base() by {
                assert(pre.chunks()[a].base() != pre.chunks()[b].base());
            }
            assert forall|a: int| 0 <= a < post.chunks().len() implies (
            #[trigger] post.chunks()[a]).wf() by {
                if a != c {
                    assert(pre.chunks()[a].wf());
                }
            }
            pre.lemma_same_chunks(post);
            assert forall|p: usize| post.owns(p) <==> (p != slot_ptr && pre.owns(p)) by {
                if pre.covers(p) {
                    let d = pre.chunk_at(chunk_base_of(p as int));
                    assert(pre.chunks()[d].base() == chunk_base_of(p as int));
                    let s = slot_index_of(p as int);
                    if d == c {
                        assert(post.chunks()[d].taken_slots().contains(s) == (s != slot_idx
                            && pre.chunks()[d].taken_slots().contains(s)));
                        if s == slot_idx && p % SLOT_ALIGN == 0 {
                            pre.lemma_chunk_at(c as int);
                            lemma_slot_address(p, slot_ptr);
                        }
                    } else {
                        assert(post.chunks()[d] == pre.chunks()[d]);
                    }
                }
            }
            assert(post.allocated() =~= pre.allocated().remove(slot_ptr));
            assert forall|q: usize| pre.covers(q) implies #[trigger] post.metadata_of(q)
                == pre.metadata_of(q) by {
                let d = pre.chunk_at(chunk_base_of(q as int));
                assert(pre.chunks()[d].base() == chunk_base_of(q as int));
                if d != c {
                    assert(post.chunks()[d] == pre.chunks()[d]);
                }
            }
        }
    }

    /// The metadata word of the slot that holds the byte at `addr_in_slot`.
    pub fn slot_metadata(&self, addr_in_slot: usize) -> (word: u32)
        requires
            self.wf(),
            self.covers(addr_in_slot),
        ensures
            word == self.metadata_of(addr_in_slot),
    {
        let (chunk_base, slot_idx) = slot_info(addr_in_slot);
        let c = self.find_chunk(chunk_base).unwrap();
        assert(self.chunks()[c as int].wf());
        self.chunks[c].slot_metadata[slot_idx - 1]
    }

    /// Replaces the metadata word of the slot that holds the byte at
    /// `addr_in_slot` by what `f` makes of it, and returns the new word.
    ///
    /// The chunk and the slot are derived from the address. The occupancy
    /// bitmap is not looked at: the word belongs to whoever holds the slot.
    pub fn update_slot_metadata<F: FnOnce(u32) -> u32>(&mut self, addr_in_slot: usize, f: F) -> (word:
        u32)
        requires
            old(self).wf(),
            old(self).covers(addr_in_slot),
            f.requires((old(self).metadata_of(addr_in_slot),)),
        ensures
            final(self).wf(),
            old(self).same_chunks(final(self)),
            f.ensures((old(self).metadata_of(addr_in_slot),), word),
            final(self).metadata_of(addr_in_slot) == word,
            old(self).same_metadata_but(final(self), addr_in_slot),
            final(self).allocated() == old(self).allocated(),
    {
        let ghost pre = *self;
        let (chunk_base, slot_idx) = slot_info(addr_in_slot);
        let c = self.find_chunk(chunk_base).unwrap();
        assert(self.chunks()[c as int].wf());
        let chunk = &mut self.chunks[c];
        let word = f(chunk.slot_metadata[slot_idx - 1]);
        chunk.slot_metadata.set(slot_idx - 1, word);
        proof {
            let post = &*self;
            assert(post.chunks()[c as int].taken_slots() =~= pre.chunks()[c as int].taken_slots());
            assert forall|a: int, b: int| 0 <= a < b < post.chunks().len() implies (
            #[trigger] post.chunks()[a]).base() != (#[trigger] post.chunks()[b]).base() by {
                assert(pre.chunks()[a].base() != pre.chunks()[b].base());
            }
            assert forall|a: int| 0 <= a < post.chunks().len() implies (
            #[trigger] post.chunks()[a]).wf() by {
                if a != c {
                    assert(pre.chunks()[a].wf());
                }
            }
            pre.lemma_same_chunks(post);
            assert forall|p: usize| post.owns(p) <==> pre.owns(p) by {
                if pre.covers(p) {
                    let d = pre.chunk_at(chunk_base_of(p as int));
                    assert(pre.chunks()[d].base() == chunk_base_of(p as int));
                    if d != c {
                        assert(post.chunks()[d] == pre.chunks()[d]);
                    }
                }
            }
            assert(post.allocated() =~= pre.allocated());
            assert forall|q: usize|
                pre.covers(q) && (chunk_base_of(q as int) != chunk_base_of(addr_in_slot as int)
                    || slot_index_of(q as int) != slot_index_of(addr_in_slot as int))
                    implies #[trigger] post.metadata_of(q) == pre.metadata_of(q) by {
                let d = pre.chunk_at(chunk_base_of(q as int));
                assert(pre.chunks()[d].base() == chunk_base_of(q as int));
                if d != c {
                    assert(post.chunks()[d] == pre.chunks()[d]);
                }
            }
        }
        word
    }
}

/// Two slot addresses in the same slot of the same chunk are the same.
pub proof fn lemma_slot_address(p: usize, q: usize)
    requires
        p % SLOT_ALIGN == 0,
        q % SLOT_ALIGN == 0,
        chunk_base_of(p as int) == chunk_base_of(q as int),
        slot_index_of(p as int) == slot_index_of(q as int),
    ensures
        p == q,
{
    assert(p % 0x1000 == 0 && q % 0x1000 == 0 && (p / 0x200_000) * 0x200_000 == (q / 0x200_000)
        * 0x200_000 && (p % 0x200_000) / 0x1000 == (q % 0x200_000) / 0x1000 ==> p == q)
        by (bit_vector);
}

} // verus!
