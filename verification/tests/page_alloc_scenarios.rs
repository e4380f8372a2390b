use kernel_core::mem::bump_alloc::BumpAlloc;
use kernel_core::mem::page_alloc::TreeAlloc;
use kernel_core::mem::region::{MemoryKind, MemoryMapEntry, PageAlloc, Region};
use kernel_core::mem::{MAX_HEIGHT, PAGE_SIZE};

/// Number of set bits in the leaf layer of a tree.
fn leaf_popcount(tree: &TreeAlloc) -> u32 {
    let height = tree.get_height() as u32;
    let leaf_start = (64usize.pow(height - 1) - 1) / 63;
    (leaf_start..tree.num_words()).map(|i| tree.get_word(i).count_ones()).sum()
}

/// Checks that each bit of each inner word is set exactly when its child
/// word is all ones.
fn check_summaries(tree: &TreeAlloc) {
    let height = tree.get_height() as u32;
    for layer in 0..height.saturating_sub(1) {
        let start = (64usize.pow(layer) - 1) / 63;
        let child_start = (64usize.pow(layer + 1) - 1) / 63;
        for idx in 0..64usize.pow(layer) {
            let word = tree.get_word(start + idx);
            for bit in 0..64 {
                let child = tree.get_word(child_start + idx * 64 + bit);
                assert_eq!((word >> bit) & 1 == 1, child == u64::MAX);
            }
        }
    }
}

#[test]
fn test_single_word_tree_scenario() {
    // 64 pages
    let mut tree = TreeAlloc::new(1);

    // Alloc 4 returns 0,1,2,3 in order
    for expected in 0..4 {
        assert_eq!(tree.allocate(), Some(expected));
    }
    assert_eq!(tree.get_word(0), 0b1111);

    // Free 2
    tree.free(2);
    assert_eq!(tree.get_word(0), 0b1011);

    // Alloc 1 returns 2
    assert_eq!(tree.allocate(), Some(2));
    assert_eq!(tree.get_word(0), 0b1111);

    // Alloc 60 fills the word
    for expected in 4..64 {
        assert_eq!(tree.allocate(), Some(expected));
    }
    assert_eq!(tree.get_word(0), u64::MAX);

    // The 65th alloc returns absent
    assert_eq!(tree.allocate(), None);
    assert_eq!(tree.get_word(0), u64::MAX);
}

#[test]
fn test_two_level_tree_scenario() {
    // 4096 pages: 65 words, layer sizes 1 + 64
    let mut tree = TreeAlloc::new(2);
    assert_eq!(tree.num_words(), 65);

    // Allocate 64 pages: word 0 of layer 1 is all ones, root bit 0 is set
    for expected in 0..64 {
        assert_eq!(tree.allocate(), Some(expected));
    }
    assert_eq!(tree.get_word(1), u64::MAX);
    assert_eq!(tree.get_word(0), 0b1);

    // Allocate up to 128 pages: words 0 and 1 of layer 1 are full, root = 0b11
    for expected in 64..128 {
        assert_eq!(tree.allocate(), Some(expected));
    }
    assert_eq!(tree.get_word(1), u64::MAX);
    assert_eq!(tree.get_word(2), u64::MAX);
    assert_eq!(tree.get_word(0), 0b11);

    // Free 1 page: the leaf bit is cleared, and the root bit on the path
    tree.free(70);
    assert_eq!(tree.get_word(2), u64::MAX & !(1 << 6));
    assert_eq!(tree.get_word(1), u64::MAX);
    assert_eq!(tree.get_word(0), 0b01);
    check_summaries(&tree);

    // The freed page is the lowest free page
    assert_eq!(tree.allocate(), Some(70));
    assert_eq!(tree.get_word(0), 0b11);
}

#[test]
fn test_summary_bits_are_exact_between_operations() {
    let mut tree = TreeAlloc::new(3);
    let mut state = 12345u64;
    let mut live = Vec::new();
    for round in 0..20000 {
        state = state.wrapping_mul(6364136223846793005).wrapping_add(1442695040888963407);
        if (state >> 40) % 3 != 0 || live.is_empty() {
            live.push(tree.allocate().unwrap());
        } else {
            let pick = ((state >> 20) as usize) % live.len();
            tree.free(live.swap_remove(pick));
        }
        if round % 2000 == 0 {
            check_summaries(&tree);
            assert_eq!(leaf_popcount(&tree) as usize, live.len());
        }
    }
    check_summaries(&tree);
    assert_eq!(leaf_popcount(&tree) as usize, live.len());
}

#[test]
fn test_popcount_counts_live_allocations() {
    let mut tree = TreeAlloc::new(2);
    assert_eq!(leaf_popcount(&tree), 0);
    for n in 1..=200 {
        tree.allocate().unwrap();
        assert_eq!(leaf_popcount(&tree), n);
    }
    for (freed, page) in [5usize, 64, 199, 0, 100].into_iter().enumerate() {
        tree.free(page);
        assert_eq!(leaf_popcount(&tree) as usize, 200 - freed - 1);
    }
}

#[test]
fn test_free_restores_bitmap() {
    let mut tree = TreeAlloc::new(3);
    for _ in 0..(64 * 64 - 1) {
        tree.allocate().unwrap();
    }
    tree.free(17);
    let before: Vec<u64> = (0..tree.num_words()).map(|i| tree.get_word(i)).collect();

    // This allocation fills a leaf word and a word above it
    let page = tree.allocate().unwrap();
    assert_eq!(page, 17);
    let page = tree.allocate().unwrap();
    assert_eq!(page, 4095);
    assert_eq!(tree.get_word(0), 0b1);
    tree.free(4095);
    tree.free(17);
    tree.allocate().unwrap();
    tree.free(17);

    let after: Vec<u64> = (0..tree.num_words()).map(|i| tree.get_word(i)).collect();
    assert_eq!(before, after);
}

#[test]
fn test_free_of_free_page_changes_nothing() {
    let mut tree = TreeAlloc::new(2);
    tree.allocate().unwrap();
    tree.free(100);
    assert_eq!(tree.get_word(0), 0);
    assert_eq!(tree.get_word(1), 0b1);
    assert_eq!(tree.get_word(2), 0);
}

#[test]
fn test_find_free_does_not_allocate() {
    let mut tree = TreeAlloc::new(1);
    assert_eq!(tree.find_free(), Some(0));
    assert_eq!(tree.find_free(), Some(0));
    tree.mark(0);
    assert_eq!(tree.find_free(), Some(1));
    assert_eq!(tree.get_word(0), 0b1);
}

#[test]
fn test_calc_size_limits() {
    // A region of exactly one page has a tree of one word
    assert_eq!(TreeAlloc::calc_size_for(PAGE_SIZE), Some(8));
    assert_eq!(TreeAlloc::calc_size_for(1), Some(8));
    // 64 pages fit in one word, the 65th page needs a second layer
    assert_eq!(TreeAlloc::calc_size_for(64 * PAGE_SIZE), Some(8));
    assert_eq!(TreeAlloc::calc_size_for(64 * PAGE_SIZE + 1), Some(65 * 8));
    // The largest region: 64^5 pages, a tree of height 5
    let largest = 64usize.pow(5) * PAGE_SIZE;
    assert_eq!(TreeAlloc::calc_size_for(largest), Some(17043521 * 8));
    // One page more is too large
    assert_eq!(TreeAlloc::calc_size_for(largest + 1), None);
    assert_eq!(TreeAlloc::calc_size_for(usize::MAX), None);
}

#[test]
fn test_leaf_words_for() {
    assert_eq!(TreeAlloc::leaf_words_for(1), Some(1));
    assert_eq!(TreeAlloc::leaf_words_for(64), Some(1));
    assert_eq!(TreeAlloc::leaf_words_for(65), Some(64));
    assert_eq!(TreeAlloc::leaf_words_for(4097), Some(4096));
    assert_eq!(TreeAlloc::leaf_words_for(64usize.pow(5)), Some(64usize.pow(4)));
    assert_eq!(TreeAlloc::leaf_words_for(64usize.pow(5) + 1), None);
}

#[test]
fn test_region_of_one_page() {
    // A region of exactly one page has a tree of height 1 with only bit 0 usable
    let mut region = Region::new(500, 1, 0x9000);
    assert_eq!(region.allocate(), Some(500));
    assert_eq!(region.allocate(), None);
    assert_eq!(region.allocate(), None);
    region.free(500);
    assert_eq!(region.allocate(), Some(500));
}

#[test]
fn test_region_allocates_only_its_pages() {
    let mut region = Region::new(1000, 70, 0x9000);
    assert!(region.contains(1000));
    assert!(region.contains(1069));
    assert!(!region.contains(1070));
    assert!(!region.contains(999));
    for expected in 1000..1070 {
        assert_eq!(region.allocate(), Some(expected));
    }
    assert_eq!(region.allocate(), None);
    region.free(1033);
    assert_eq!(region.allocate(), Some(1033));
    assert_eq!(region.allocate(), None);
}

fn entry(base: usize, length: usize, kind: MemoryKind) -> MemoryMapEntry {
    MemoryMapEntry { base, length, kind }
}

#[test]
fn test_memory_kinds() {
    assert!(MemoryKind::Usable.is_usable());
    assert!(MemoryKind::BootloaderReclaimable.is_usable());
    assert!(MemoryKind::AcpiReclaimable.is_usable());
    assert!(!MemoryKind::Reserved.is_usable());
    assert!(!MemoryKind::AcpiNvs.is_usable());
    assert!(!MemoryKind::BadMemory.is_usable());
    assert!(!MemoryKind::KernelAndModules.is_usable());
    assert!(!MemoryKind::Framebuffer.is_usable());
}

#[test]
fn test_memory_map_entry_validity() {
    assert!(entry(0x1000, 0x2000, MemoryKind::Usable).is_valid());
    assert!(!entry(0x1001, 0x2000, MemoryKind::Usable).is_valid());
    assert!(!entry(0x1000, 0x2001, MemoryKind::Usable).is_valid());
    assert!(!entry(0x1000, 0, MemoryKind::Usable).is_valid());
    assert!(!entry(usize::MAX - 0xfff, 0x2000, MemoryKind::Usable).is_valid());
    assert!(entry(0, 64usize.pow(MAX_HEIGHT as u32) * PAGE_SIZE, MemoryKind::Usable).is_valid());
    assert!(!entry(0, (64usize.pow(MAX_HEIGHT as u32) + 1) * PAGE_SIZE, MemoryKind::Usable).is_valid());
}

#[test]
fn test_page_alloc_first_fit_over_regions() {
    let memmap = vec![
        entry(0x10_000, 2 * PAGE_SIZE, MemoryKind::Usable),
        entry(0x20_000, 4 * PAGE_SIZE, MemoryKind::Reserved),
        entry(0x30_000, 3 * PAGE_SIZE, MemoryKind::BootloaderReclaimable),
        entry(0x40_000, PAGE_SIZE, MemoryKind::Framebuffer),
        entry(0x50_000, PAGE_SIZE, MemoryKind::AcpiReclaimable),
    ];
    let mut bump = BumpAlloc::new(0x8000_0000, 0x1000);
    assert!(PageAlloc::metadata_fits(&memmap, &bump));
    let mut pages = PageAlloc::init(&memmap, &mut bump);
    assert_eq!(pages.num_regions(), 3);
    // Each of the three trees is one word
    assert_eq!(bump.position(), 0x8000_0000 + 3 * 8);

    // Region 0 first, then region 1, then region 2
    assert_eq!(pages.allocate(), Some(0x10));
    assert_eq!(pages.allocate(), Some(0x11));
    assert_eq!(pages.allocate(), Some(0x30));
    assert_eq!(pages.allocate(), Some(0x31));
    assert_eq!(pages.allocate(), Some(0x32));
    assert_eq!(pages.allocate(), Some(0x50));
    assert_eq!(pages.allocate(), None);
    assert_eq!(pages.allocate(), None);

    // A page freed in an earlier region is handed out before later regions
    pages.free(0x31);
    pages.free(0x50);
    pages.free(0x10);
    assert_eq!(pages.allocate(), Some(0x10));
    assert_eq!(pages.allocate(), Some(0x31));
    assert_eq!(pages.allocate(), Some(0x50));
    assert_eq!(pages.allocate(), None);
}

#[test]
fn test_page_alloc_without_usable_memory() {
    let memmap = vec![entry(0x10_000, 2 * PAGE_SIZE, MemoryKind::Reserved)];
    let mut bump = BumpAlloc::new(0x8000_0000, 0x1000);
    let mut pages = PageAlloc::init(&memmap, &mut bump);
    assert_eq!(bump.position(), 0x8000_0000);
    assert_eq!(pages.num_regions(), 0);
    assert_eq!(pages.allocate(), None);
}

#[test]
fn test_mock_pass_and_actual_pass_lay_out_alike() {
    let memmap = vec![
        entry(0x10_0000, 20 * PAGE_SIZE, MemoryKind::Usable),
        entry(0x20_0000, 4 * PAGE_SIZE, MemoryKind::Reserved),
        entry(0x30_0000, 70 * PAGE_SIZE, MemoryKind::BootloaderReclaimable),
        entry(0x100_0000, 5000 * PAGE_SIZE, MemoryKind::Usable),
    ];
    // The trees take 1, 65 and 4161 words
    let words = 1 + 65 + 4161;

    let mut mock = BumpAlloc::new(0x8000_0004, 0x1_0000);
    let mut actual = BumpAlloc::new(0x8000_0004, 0x1_0000);
    PageAlloc::mock_init(&memmap, &mut mock);
    let pages = PageAlloc::init(&memmap, &mut actual);

    assert_eq!(pages.num_regions(), 3);
    assert_eq!(mock.position(), 0x8000_0008 + words * 8);
    assert_eq!(mock.position(), actual.position());
}

#[test]
fn test_metadata_must_fit_the_buffer() {
    let memmap = vec![
        entry(0x10_0000, 20 * PAGE_SIZE, MemoryKind::Usable),
        entry(0x30_0000, 70 * PAGE_SIZE, MemoryKind::Usable),
    ];
    // 66 words are needed, and the last byte of the buffer stays free
    let needed = 66 * 8;
    assert!(PageAlloc::metadata_fits(&memmap, &BumpAlloc::new(0x1000, needed + 1)));
    assert!(!PageAlloc::metadata_fits(&memmap, &BumpAlloc::new(0x1000, needed)));
    assert!(!PageAlloc::metadata_fits(&memmap, &BumpAlloc::new(0x1000, 8)));
    assert!(PageAlloc::metadata_fits(&Vec::new(), &BumpAlloc::new(0x1000, 1)));

    // The mock pass needs each tree to start within the buffer only
    assert!(PageAlloc::mock_fits(&memmap, &BumpAlloc::new(0x1000, needed)));
    assert!(PageAlloc::mock_fits(&memmap, &BumpAlloc::new(0x1000, 9)));
    assert!(!PageAlloc::mock_fits(&memmap, &BumpAlloc::new(0x1000, 8)));
    let mut mock = BumpAlloc::new(0x1000, 9);
    PageAlloc::mock_init(&memmap, &mut mock);
    assert_eq!(mock.position(), 0x1000 + needed);
}

#[test]
fn test_allocate_from_tells_the_region() {
    let memmap = vec![
        entry(0x10_000, PAGE_SIZE, MemoryKind::Usable),
        entry(0x30_000, 2 * PAGE_SIZE, MemoryKind::Usable),
    ];
    let mut bump = BumpAlloc::new(0x8000_0000, 0x1000);
    let mut pages = PageAlloc::init(&memmap, &mut bump);
    assert_eq!(pages.allocate_from(), Some((0, 0x10)));
    assert_eq!(pages.allocate_from(), Some((1, 0x30)));
    assert_eq!(pages.allocate_from(), Some((1, 0x31)));
    assert_eq!(pages.allocate_from(), None);

    pages.free_in(1, 0x30);
    assert_eq!(pages.allocate_from(), Some((1, 0x30)));
    pages.free_in(0, 0x10);
    pages.free_in(1, 0x31);
    assert_eq!(pages.allocate(), Some(0x10));
    assert_eq!(pages.allocate(), Some(0x31));
}
