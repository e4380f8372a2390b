use kernel_core::heap::chunk::{slot_info, ChunkAlloc, ChunkHeader, CHUNK_SIZE, SLOT_SIZE};
use kernel_core::heap::grow::{acquire_chunk, CHUNK_PAGES};
use kernel_core::mem::bump_alloc::BumpAlloc;
use kernel_core::mem::region::{MemoryKind, MemoryMapEntry, PageAlloc};
use kernel_core::heap::pool::ObjectPool;
use kernel_core::heap::{init, Arena, Box, Heap};

const BASE: usize = 0x4000_0000;

fn popcount(header: &ChunkHeader) -> u32 {
    (0..8).map(|i| header.bitmap_word(i).count_ones()).sum()
}

#[test]
fn test_slot_info() {
    assert_eq!(slot_info(BASE), (BASE, 0));
    assert_eq!(slot_info(BASE + SLOT_SIZE), (BASE, 1));
    assert_eq!(slot_info(BASE + SLOT_SIZE + 17), (BASE, 1));
    assert_eq!(slot_info(BASE + 511 * SLOT_SIZE + 4095), (BASE, 511));
    assert_eq!(slot_info(BASE + CHUNK_SIZE), (BASE + CHUNK_SIZE, 0));
}

#[test]
fn test_chunk_header_counts_occupied_slots() {
    let mut header = ChunkHeader::new(BASE, 3);
    // Slot 0 is the header's
    assert_eq!(header.bitmap_word(0), 0b1);
    assert_eq!(header.num_occupied_slots(), 0);
    assert_eq!(popcount(&header), 1);

    for n in 1..=200u16 {
        let ptr = header.alloc_slot().unwrap();
        assert_eq!(ptr, BASE + n as usize * SLOT_SIZE);
        assert_eq!(header.num_occupied_slots(), n);
        assert_eq!(popcount(&header), n as u32 + 1);
    }
    header.free_slot(7);
    header.free_slot(130);
    assert_eq!(header.num_occupied_slots(), 198);
    assert_eq!(popcount(&header), 199);
    assert_eq!(header.bitmap_word(0), u64::MAX & !(1 << 7));

    // The lowest free slot is handed out first
    assert_eq!(header.alloc_slot(), Some(BASE + 7 * SLOT_SIZE));
    assert_eq!(header.alloc_slot(), Some(BASE + 130 * SLOT_SIZE));
    assert_eq!(header.alloc_slot(), Some(BASE + 201 * SLOT_SIZE));
}

#[test]
fn test_chunk_header_exhaustion() {
    let mut header = ChunkHeader::new(BASE, 0);
    for n in 1..512 {
        assert_eq!(header.alloc_slot(), Some(header.slot_ptr(n)));
    }
    assert_eq!(header.num_occupied_slots(), 511);
    assert_eq!(header.alloc_slot(), None);
    assert_eq!(header.num_occupied_slots(), 511);
    for i in 0..8 {
        assert_eq!(header.bitmap_word(i), u64::MAX);
    }
}

#[test]
fn test_chunk_alloc_first_fit_over_chunks() {
    let mut chunks = ChunkAlloc::new(BASE, 10);
    for n in 1..512 {
        assert_eq!(chunks.alloc_slot(), Some(BASE + n * SLOT_SIZE));
    }
    assert_eq!(chunks.alloc_slot(), None);

    let second = BASE + 4 * CHUNK_SIZE;
    assert_eq!(chunks.find_chunk(second), None);
    chunks.add_chunk(second, 6);
    assert_eq!(chunks.num_chunks(), 2);
    assert_eq!(chunks.find_chunk(second), Some(1));
    assert_eq!(chunks.alloc_slot(), Some(second + SLOT_SIZE));
    assert_eq!(chunks.occupied_slots(0), 511);
    assert_eq!(chunks.occupied_slots(1), 1);

    // A slot freed in the first chunk is handed out before the second chunk's
    chunks.free_slot(BASE + 300 * SLOT_SIZE);
    assert_eq!(chunks.occupied_slots(0), 510);
    assert_eq!(chunks.alloc_slot(), Some(BASE + 300 * SLOT_SIZE));
    assert_eq!(chunks.alloc_slot(), Some(second + 2 * SLOT_SIZE));
}

#[test]
fn test_slot_metadata() {
    let mut chunks = ChunkAlloc::new(BASE, 0);
    let a = chunks.alloc_slot().unwrap();
    let b = chunks.alloc_slot().unwrap();
    assert_eq!(chunks.slot_metadata(a), 0);

    // Any address within the slot stands for the slot
    assert_eq!(chunks.update_slot_metadata(a + 100, |word| word + 5), 5);
    assert_eq!(chunks.update_slot_metadata(a + 4095, |word| word * 3), 15);
    assert_eq!(chunks.slot_metadata(a), 15);
    assert_eq!(chunks.slot_metadata(b), 0);

    // The word is zeroed when the slot is handed out again
    chunks.free_slot(a);
    assert_eq!(chunks.alloc_slot(), Some(a));
    assert_eq!(chunks.slot_metadata(a), 0);
}

#[test]
fn test_pool_hands_out_last_object_first() {
    let mut chunks = ChunkAlloc::new(BASE, 0);
    let mut pool: ObjectPool<256> = ObjectPool::new();
    let slot = BASE + SLOT_SIZE;

    // The last object of a fresh slot is handed out, then the others from the first on
    assert_eq!(pool.allocate(&mut chunks), Some(slot + 15 * 256));
    assert_eq!(pool.num_free(), 15);
    assert_eq!(chunks.slot_metadata(slot), 1);
    for n in 0..15 {
        assert_eq!(pool.allocate(&mut chunks), Some(slot + n * 256));
        assert_eq!(chunks.slot_metadata(slot), n as u32 + 2);
    }
    assert_eq!(pool.num_free(), 0);

    // The next allocation takes a second slot
    assert_eq!(pool.allocate(&mut chunks), Some(slot + SLOT_SIZE + 15 * 256));
    assert_eq!(chunks.occupied_slots(0), 2);
}

#[test]
fn test_pool_reuses_freed_object_first() {
    let mut chunks = ChunkAlloc::new(BASE, 0);
    let mut pool: ObjectPool<256> = ObjectPool::new();
    let a = pool.allocate(&mut chunks).unwrap();
    let b = pool.allocate(&mut chunks).unwrap();
    let c = pool.allocate(&mut chunks).unwrap();
    pool.free(&mut chunks, b);
    assert_eq!(chunks.slot_metadata(a), 2);
    assert_eq!(pool.allocate(&mut chunks), Some(b));
    pool.free(&mut chunks, a);
    pool.free(&mut chunks, c);
    assert_eq!(pool.allocate(&mut chunks), Some(c));
    assert_eq!(pool.allocate(&mut chunks), Some(a));
}

#[test]
fn test_pool_returns_empty_slot() {
    let mut chunks = ChunkAlloc::new(BASE, 0);
    let mut pool: ObjectPool<256> = ObjectPool::new();
    let other = chunks.alloc_slot().unwrap();

    let objects: Vec<usize> = (0..20).map(|_| pool.allocate(&mut chunks).unwrap()).collect();
    assert_eq!(chunks.occupied_slots(0), 3);
    let first_slot = other + SLOT_SIZE;
    let second_slot = first_slot + SLOT_SIZE;
    assert_eq!(chunks.slot_metadata(first_slot), 16);
    assert_eq!(chunks.slot_metadata(second_slot), 4);

    // Free the objects of the second slot: the slot goes back to the chunk allocator
    for &obj in objects.iter().filter(|&&obj| obj >= second_slot) {
        pool.free(&mut chunks, obj);
    }
    assert_eq!(chunks.occupied_slots(0), 2);
    assert_eq!(pool.num_free(), 0);

    // Free the objects of the first slot: the pool is left without slots
    for &obj in objects.iter().filter(|&&obj| obj < second_slot) {
        pool.free(&mut chunks, obj);
    }
    assert_eq!(chunks.occupied_slots(0), 1);
    assert_eq!(pool.num_free(), 0);

    // The slots are handed out again
    assert_eq!(chunks.alloc_slot(), Some(first_slot));
    assert_eq!(pool.allocate(&mut chunks), Some(second_slot + 15 * 256));
}

#[test]
fn test_pool_of_other_size_class() {
    let mut chunks = ChunkAlloc::new(BASE, 0);
    let mut pool: ObjectPool<1024> = ObjectPool::new();
    let slot = BASE + SLOT_SIZE;
    assert_eq!(pool.allocate(&mut chunks), Some(slot + 3 * 1024));
    assert_eq!(pool.allocate(&mut chunks), Some(slot));
    assert_eq!(pool.allocate(&mut chunks), Some(slot + 1024));
    assert_eq!(pool.allocate(&mut chunks), Some(slot + 2 * 1024));
    assert_eq!(pool.allocate(&mut chunks), Some(slot + SLOT_SIZE + 3 * 1024));
}

#[test]
fn test_chunk_exhaustion() {
    // Pool of size class 256 backed by a single chunk
    let mut heap = init(BASE, BASE + CHUNK_SIZE);
    let objs_per_slot = SLOT_SIZE / 256;
    let mut live = 0;

    for slot in 1..512 {
        let slot_addr = BASE + slot * SLOT_SIZE;
        let mut prev = None;
        for n in 0..objs_per_slot {
            let obj = heap.alloc_object().expect("the chunk has room for this object");
            live += 1;
            if n == 0 {
                // The last object of the slot comes first
                assert_eq!(obj, slot_addr + (objs_per_slot - 1) * 256);
            } else {
                // Then the addresses go up from the start of the slot
                assert_eq!(obj, slot_addr + (n - 1) * 256);
                if let Some(prev) = prev {
                    assert!(obj > prev);
                }
                prev = Some(obj);
            }
        }
        assert_eq!(heap.occupied_slots(0) as usize, slot);
    }
    assert_eq!(live, objs_per_slot * 511);

    // The next allocation needs a new chunk
    assert_eq!(heap.alloc_object(), None);
    assert_eq!(heap.alloc_slot(), None);
    let second = BASE + CHUNK_SIZE;
    assert!(!heap.has_chunk(second));
    heap.add_chunk(second, 0);
    assert!(heap.has_chunk(second));
    assert_eq!(heap.num_chunks(), 2);
    assert_eq!(heap.alloc_object(), Some(second + SLOT_SIZE + (objs_per_slot - 1) * 256));
}

#[test]
fn test_heap_init() {
    let heap: Heap = init(BASE, BASE + CHUNK_SIZE);
    assert_eq!(heap.num_chunks(), 1);
    assert_eq!(heap.occupied_slots(0), 0);
    assert!(heap.has_chunk(BASE));
    assert!(!heap.has_chunk(BASE + CHUNK_SIZE));
}

#[test]
fn test_heap_slots_and_objects_share_chunks() {
    let mut heap = init(BASE, BASE + CHUNK_SIZE);
    let slot = heap.alloc_slot().unwrap();
    assert_eq!(slot, BASE + SLOT_SIZE);
    let obj = heap.alloc_object().unwrap();
    assert_eq!(obj, BASE + 2 * SLOT_SIZE + 15 * 256);
    assert_eq!(heap.update_slot_metadata(slot + 8, |word| word + 41), 41);
    assert_eq!(heap.slot_metadata(slot), 41);
    assert_eq!(heap.slot_metadata(obj), 1);
    heap.free_slot(slot);
    heap.free_object(obj);
    assert_eq!(heap.occupied_slots(0), 0);
}

#[test]
fn test_box_holds_value() {
    let mut heap = init(BASE, BASE + CHUNK_SIZE);
    let mut a = Box::new([1u64, 2, 3], &mut heap).unwrap();
    let b = Box::new(String::from("kernel"), &mut heap).unwrap();
    assert_ne!(a.address(), b.address());
    assert_eq!(a.address() % 256, 0);
    assert_eq!(b.address() % 256, 0);
    assert_eq!(heap.slot_metadata(a.address()), 2);

    assert_eq!(*a.get(), [1, 2, 3]);
    a.get_mut()[1] = 20;
    assert_eq!(*a.get(), [1, 20, 3]);
    assert_eq!(b.get().as_str(), "kernel");

    let a_addr = a.address();
    assert_eq!(a.free(&mut heap), [1, 20, 3]);
    assert_eq!(heap.slot_metadata(b.address()), 1);

    // The freed object is handed out again
    let c = Box::new(7u8, &mut heap).unwrap();
    assert_eq!(c.address(), a_addr);
    assert_eq!(b.free(&mut heap), "kernel");
    assert_eq!(c.free(&mut heap), 7);
    assert_eq!(heap.occupied_slots(0), 0);
}

#[test]
fn test_live_objects_follow_allocs_and_frees() {
    let mut chunks = ChunkAlloc::new(BASE, 0);
    let mut pool: ObjectPool<256> = ObjectPool::new();
    let mut live: Vec<usize> = Vec::new();
    let mut state = 99u64;

    for _ in 0..5000 {
        state = state.wrapping_mul(6364136223846793005).wrapping_add(1442695040888963407);
        if (state >> 40) % 5 < 3 || live.is_empty() {
            let obj = pool.allocate(&mut chunks).unwrap();
            assert!(!live.contains(&obj));
            live.push(obj);
        } else {
            let pick = ((state >> 20) as usize) % live.len();
            pool.free(&mut chunks, live.swap_remove(pick));
        }

        // The live counts of the pool's slots add up to allocs minus frees
        let mut slots: Vec<usize> = live.iter().map(|obj| obj / SLOT_SIZE * SLOT_SIZE).collect();
        slots.sort();
        slots.dedup();
        let counted: u32 = slots.iter().map(|&slot| chunks.slot_metadata(slot)).sum();
        assert_eq!(counted as usize, live.len());
        assert_eq!(chunks.occupied_slots(0) as usize, slots.len());
        assert_eq!(pool.num_free(), slots.len() * 16 - live.len());
    }
}

fn page_alloc(ranges: &[(usize, usize)]) -> PageAlloc {
    let memmap: Vec<MemoryMapEntry> = ranges
        .iter()
        .map(|&(first_page, num_pages)| MemoryMapEntry {
            base: first_page * 4096,
            length: num_pages * 4096,
            kind: MemoryKind::Usable,
        })
        .collect();
    let mut bump = BumpAlloc::new(0x8000_0000, 0x10_0000);
    PageAlloc::init(&memmap, &mut bump)
}

#[test]
fn test_acquire_chunk() {
    let mut pages = page_alloc(&[(1024, 2000)]);
    let chunk = acquire_chunk(&mut pages).unwrap();
    assert_eq!(chunk.first, 1024);
    assert_eq!(chunk.owners, vec![0; CHUNK_PAGES]);
    let chunk = acquire_chunk(&mut pages).unwrap();
    assert_eq!(chunk.first, 1536);
    let chunk = acquire_chunk(&mut pages).unwrap();
    assert_eq!(chunk.first, 2048);

    // 464 pages are left, which is not enough: none of them stays allocated
    assert!(acquire_chunk(&mut pages).is_none());
    assert_eq!(pages.allocate(), Some(2560));
}

#[test]
fn test_acquire_chunk_over_adjacent_regions() {
    // The pages of a chunk may come from regions that lie side by side
    let mut pages = page_alloc(&[(512, 100), (612, 1000)]);
    let chunk = acquire_chunk(&mut pages).unwrap();
    assert_eq!(chunk.first, 512);
    assert_eq!(chunk.owners[..100], [0; 100]);
    assert_eq!(chunk.owners[100..], [1; 412]);
    assert_eq!(pages.allocate(), Some(1024));
}

#[test]
fn test_acquire_chunk_gives_pages_back() {
    // The first free page is not on a chunk boundary
    let mut pages = page_alloc(&[(513, 2000)]);
    assert!(acquire_chunk(&mut pages).is_none());
    assert_eq!(pages.allocate(), Some(513));

    // The pages do not follow one another: there is a gap after page 1100
    let mut pages = page_alloc(&[(1024, 77), (2048, 1000)]);
    assert!(acquire_chunk(&mut pages).is_none());
    assert_eq!(pages.allocate(), Some(1024));
    assert_eq!(pages.allocate(), Some(1025));

    // Nothing to allocate
    let mut pages = page_alloc(&[]);
    assert!(acquire_chunk(&mut pages).is_none());
}

#[test]
fn test_heap_grows_by_a_chunk() {
    let hhdm_offset = 0xffff_8000_0000_0000;
    let mut pages = page_alloc(&[(0x400, 600)]);
    let mut heap = init(BASE, BASE + CHUNK_SIZE);

    // As long as the bootstrap chunk has free slots, the heap does not grow
    for slot in 1..512 {
        assert_eq!(heap.alloc_slot_or_grow(&mut pages, hhdm_offset), Some(BASE + slot * SLOT_SIZE));
    }
    assert_eq!(heap.num_chunks(), 1);

    // The next slot is in a chunk from the page allocator
    let chunk = hhdm_offset + 0x400 * 4096;
    assert_eq!(heap.alloc_slot_or_grow(&mut pages, hhdm_offset), Some(chunk + SLOT_SIZE));
    assert_eq!(heap.num_chunks(), 2);
    assert!(heap.has_chunk(chunk));
    assert_eq!(heap.occupied_slots(1), 1);
    // The pages of the chunk are taken
    assert_eq!(pages.allocate(), Some(0x400 + 512));

    // The second chunk is filled; the page allocator has no third
    for slot in 2..512 {
        assert_eq!(heap.alloc_slot_or_grow(&mut pages, hhdm_offset), Some(chunk + slot * SLOT_SIZE));
    }
    assert_eq!(heap.alloc_slot_or_grow(&mut pages, hhdm_offset), None);
    assert_eq!(heap.num_chunks(), 2);
    assert_eq!(pages.allocate(), Some(0x400 + 513));
}

#[test]
fn test_heap_does_not_grow_onto_misaligned_address() {
    let mut pages = page_alloc(&[(0x400, 600)]);
    let mut heap = init(BASE, BASE + CHUNK_SIZE);
    // With this offset the chunk would not lie on a chunk boundary
    assert!(!heap.grow(&mut pages, 0x1000));
    assert_eq!(heap.num_chunks(), 1);
    // The pages went back
    assert_eq!(pages.allocate(), Some(0x400));
    pages.free(0x400);
    assert!(heap.grow(&mut pages, 0));
    assert_eq!(heap.num_chunks(), 2);
    assert!(heap.has_chunk(0x400 * 4096));
    assert_eq!(pages.allocate(), Some(0x600));
}

#[test]
fn test_objects_make_the_heap_grow() {
    let mut pages = page_alloc(&[(0x800, 512)]);
    let mut heap = init(BASE, BASE + CHUNK_SIZE);
    for _ in 0..(511 * 16) {
        assert!(heap.alloc_object_or_grow(&mut pages, 0).is_some());
    }
    assert_eq!(heap.num_chunks(), 1);
    assert_eq!(heap.alloc_object_or_grow(&mut pages, 0), Some(0x800 * 4096 + SLOT_SIZE + 15 * 256));
    assert_eq!(heap.num_chunks(), 2);
    assert_eq!(pages.allocate(), None);
}

#[test]
fn test_arena_hands_out_nodes_in_order() {
    let mut heap = init(BASE, BASE + CHUNK_SIZE);
    let mut arena: Arena<[u64; 4]> = Arena::new(&mut heap).unwrap();
    let slot = BASE + SLOT_SIZE;
    assert_eq!(arena.slot_addr(), slot);
    // Nodes of 32 bytes
    assert_eq!(arena.capacity(), 128);
    assert_eq!(arena.len(), 0);
    assert_eq!(heap.slot_metadata(slot), 0);

    for n in 0..128u64 {
        assert_eq!(arena.allocate(&mut heap, [n; 4]), Some(slot + n as usize * 32));
        assert_eq!(heap.slot_metadata(slot), n as u32 + 1);
    }
    assert_eq!(arena.len(), 128);
    // No free node is left
    assert_eq!(arena.allocate(&mut heap, [0; 4]), None);
    assert_eq!(arena.len(), 128);
    assert_eq!(heap.slot_metadata(slot), 128);
    assert_eq!(*arena.get(slot + 5 * 32), [5; 4]);
}

#[test]
fn test_arena_reuses_freed_node_first() {
    let mut heap = init(BASE, BASE + CHUNK_SIZE);
    let mut arena: Arena<u64> = Arena::new(&mut heap).unwrap();
    let slot = arena.slot_addr();
    assert_eq!(arena.capacity(), 512);

    let a = arena.allocate(&mut heap, 10).unwrap();
    let b = arena.allocate(&mut heap, 20).unwrap();
    let c = arena.allocate(&mut heap, 30).unwrap();
    assert_eq!((a, b, c), (slot, slot + 8, slot + 16));

    assert_eq!(arena.free(&mut heap, b), 20);
    assert_eq!(arena.free(&mut heap, a), 10);
    assert_eq!(heap.slot_metadata(slot), 1);
    assert_eq!(arena.len(), 1);
    assert_eq!(*arena.get(c), 30);

    // The node that was freed last comes first
    assert_eq!(arena.allocate(&mut heap, 40), Some(a));
    assert_eq!(arena.allocate(&mut heap, 50), Some(b));
    assert_eq!(arena.allocate(&mut heap, 60), Some(slot + 24));
    assert_eq!(*arena.get(a), 40);
    assert_eq!(*arena.get(b), 50);
}

#[test]
fn test_arena_of_small_and_large_values() {
    let mut heap = init(BASE, BASE + CHUNK_SIZE);
    // A node is never smaller than a pointer
    let mut bytes: Arena<u8> = Arena::new(&mut heap).unwrap();
    assert_eq!(bytes.capacity(), 512);
    assert_eq!(bytes.allocate(&mut heap, 1), Some(BASE + SLOT_SIZE));
    assert_eq!(bytes.allocate(&mut heap, 2), Some(BASE + SLOT_SIZE + 8));

    // Nodes of 1000 bytes: four fit in a slot
    let mut blocks: Arena<[u8; 1000]> = Arena::new(&mut heap).unwrap();
    assert_eq!(blocks.slot_addr(), BASE + 2 * SLOT_SIZE);
    assert_eq!(blocks.capacity(), 4);
    for n in 0..4 {
        assert_eq!(blocks.allocate(&mut heap, [n as u8; 1000]), Some(BASE + 2 * SLOT_SIZE + n * 1000));
    }
    assert_eq!(blocks.allocate(&mut heap, [9; 1000]), None);
}

#[test]
fn test_heap_allocates_and_frees_boxes() {
    let mut heap = init(BASE, BASE + CHUNK_SIZE);
    let a = heap.allocate(11u32).unwrap();
    let b = heap.allocate((1u8, 2u64)).unwrap();
    assert_eq!(heap.slot_metadata(a.address()), 2);
    assert_eq!(*b.get(), (1, 2));
    assert_eq!(heap.free(a), 11);
    assert_eq!(heap.free(b), (1, 2));
    assert_eq!(heap.occupied_slots(0), 0);
}
