use kernel_core::mem::region::{MemoryKind, MemoryMapEntry};
use kernel_core::mem::shared_region::{SharedPageAlloc, SharedRegion};
use kernel_core::mem::shared_tree::{Attempt, SharedTree};
use kernel_core::mem::walk::{claim_won, descend, fills_word, Descent};

#[test]
fn test_descend_decisions() {
    // The lowest clear bit of a leaf word is the page to claim
    assert_eq!(descend(0b0111, 0, 1, 0), Descent::Leaf(3));
    assert_eq!(descend(0, 1, 2, 5), Descent::Leaf(0));
    // In an inner word it leads to the child word
    assert_eq!(descend(0b0111, 0, 2, 0), Descent::Down(3));
    assert_eq!(descend(0b1, 1, 3, 7), Descent::Down(7 * 64 + 1));
    // A full root word means that the tree is full
    assert_eq!(descend(u64::MAX, 0, 1, 0), Descent::Full);
    assert_eq!(descend(u64::MAX, 0, 3, 0), Descent::Full);
    // A full word below the root means that another processor was there
    assert_eq!(descend(u64::MAX, 1, 2, 3), Descent::Raced);
    assert_eq!(descend(u64::MAX, 1, 3, 3), Descent::Raced);
}

#[test]
fn test_claim_decisions() {
    assert!(claim_won(0b0101, 1));
    assert!(!claim_won(0b0101, 2));
    assert!(claim_won(0, 63));
    assert!(!claim_won(u64::MAX, 63));

    assert!(fills_word(u64::MAX & !(1 << 9), 9));
    assert!(!fills_word(u64::MAX & !(1 << 9) & !(1 << 10), 9));
    assert!(fills_word(u64::MAX, 0));
    assert!(!fills_word(0, 0));
}

#[test]
fn test_shared_tree_height_1() {
    let tree = SharedTree::new(1);
    assert_eq!(tree.word_count(), 1);

    for expected in 0..4 {
        assert_eq!(tree.try_allocate(), Attempt::Allocated(expected));
    }
    assert_eq!(tree.load_word(0), 0b1111);

    tree.free(2);
    assert_eq!(tree.load_word(0), 0b1011);
    assert_eq!(tree.try_allocate(), Attempt::Allocated(2));

    for expected in 4..64 {
        assert_eq!(tree.allocate(3), Attempt::Allocated(expected));
    }
    assert_eq!(tree.load_word(0), u64::MAX);
    assert_eq!(tree.try_allocate(), Attempt::Full);
    assert_eq!(tree.allocate(10), Attempt::Full);

    for page in 0..64 {
        tree.free(page);
    }
    assert_eq!(tree.load_word(0), 0);
}

#[test]
fn test_shared_tree_height_2() {
    let tree = SharedTree::new(2);
    assert_eq!(tree.word_count(), 65);

    for expected in 0..128 {
        assert_eq!(tree.try_allocate(), Attempt::Allocated(expected));
    }
    assert_eq!(tree.load_word(0), 0b11);
    assert_eq!(tree.load_word(1), u64::MAX);
    assert_eq!(tree.load_word(2), u64::MAX);
    assert_eq!(tree.load_word(3), 0);

    tree.free(1);
    assert_eq!(tree.load_word(0), 0b10);
    assert_eq!(tree.load_word(1), u64::MAX & !0b10);

    for _ in 128..4097 {
        assert!(matches!(tree.try_allocate(), Attempt::Allocated(_)));
    }
    for i in 0..65 {
        assert_eq!(tree.load_word(i), u64::MAX);
    }
    assert_eq!(tree.try_allocate(), Attempt::Full);
}

#[test]
fn test_shared_tree_all_heights() {
    for height in 1..=3usize {
        let tree = SharedTree::new(height);
        let pages = 64usize.pow(height as u32);
        for expected in 0..pages {
            assert_eq!(tree.try_allocate(), Attempt::Allocated(expected));
        }
        for i in 0..tree.word_count() {
            assert_eq!(tree.load_word(i), u64::MAX);
        }
        assert_eq!(tree.try_allocate(), Attempt::Full);
        for page in 0..pages {
            tree.free(page);
        }
        for i in 0..tree.word_count() {
            assert_eq!(tree.load_word(i), 0);
        }
    }
}

#[test]
fn test_stale_summary_is_reported_as_race() {
    // A leaf word that is full while the root says otherwise is what a
    // walk sees when another processor has filled the word in between
    let tree = SharedTree::new(2);
    for _ in 0..63 {
        tree.try_allocate();
    }
    // The claim of page 63 fills the leaf word and sets the root bit
    assert_eq!(tree.try_allocate(), Attempt::Allocated(63));
    assert_eq!(tree.load_word(0), 0b1);
    // No attempt is allowed: nothing is claimed
    assert_eq!(tree.allocate(0), Attempt::Raced);
    assert_eq!(tree.load_word(2), 0);
}

#[test]
fn test_retry_until_done_fills_tree() {
    // A caller that starts over on every race gets each page once
    let tree = SharedTree::new(2);
    let mut pages = Vec::new();
    loop {
        match tree.try_allocate() {
            Attempt::Allocated(page) => pages.push(page),
            Attempt::Full => break,
            Attempt::Raced => {}
        }
    }
    assert_eq!(pages, (0..4096).collect::<Vec<usize>>());
}

#[test]
fn test_shared_region_allocates_only_its_pages() {
    let region = SharedRegion::new(1000, 70);
    assert!(region.contains(1069));
    assert!(!region.contains(1070));
    for expected in 1000..1070 {
        assert_eq!(region.try_allocate(), Attempt::Allocated(expected));
    }
    // The tree has bits for 4096 pages, the region has 70
    assert_eq!(region.try_allocate(), Attempt::Full);
    assert_eq!(region.try_allocate(), Attempt::Full);
    region.free(1033);
    assert_eq!(region.try_allocate(), Attempt::Allocated(1033));
    assert_eq!(region.try_allocate(), Attempt::Full);
}

#[test]
fn test_shared_page_alloc_first_fit_over_regions() {
    let memmap = vec![
        MemoryMapEntry { base: 0x10_000, length: 2 * 4096, kind: MemoryKind::Usable },
        MemoryMapEntry { base: 0x20_000, length: 4 * 4096, kind: MemoryKind::Reserved },
        MemoryMapEntry { base: 0x30_000, length: 3 * 4096, kind: MemoryKind::AcpiReclaimable },
    ];
    let pages = SharedPageAlloc::init(&memmap);
    assert_eq!(pages.num_regions(), 2);

    for expected in [0x10, 0x11, 0x30, 0x31, 0x32] {
        assert_eq!(pages.try_allocate(), Attempt::Allocated(expected));
    }
    assert_eq!(pages.try_allocate(), Attempt::Full);

    pages.free(0x31);
    pages.free(0x11);
    assert_eq!(pages.try_allocate(), Attempt::Allocated(0x11));
    assert_eq!(pages.try_allocate(), Attempt::Allocated(0x31));
    assert_eq!(pages.try_allocate(), Attempt::Full);
}

#[test]
fn test_shared_region_settles_what_its_tree_reports() {
    let region = SharedRegion::new(100, 70);
    // An index within the region becomes the page's number
    assert_eq!(region.settle(Attempt::Allocated(0)), Attempt::Allocated(100));
    assert_eq!(region.settle(Attempt::Allocated(69)), Attempt::Allocated(169));
    // The tree has bits for more pages than the region holds
    assert_eq!(region.settle(Attempt::Allocated(70)), Attempt::Full);
    assert_eq!(region.settle(Attempt::Allocated(4095)), Attempt::Full);
    assert_eq!(region.settle(Attempt::Full), Attempt::Full);
    assert_eq!(region.settle(Attempt::Raced), Attempt::Raced);
    // Settling claims nothing
    assert_eq!(region.try_allocate(), Attempt::Allocated(100));
}

#[test]
fn test_shared_page_alloc_without_regions_is_full() {
    let pa = SharedPageAlloc::init(&Vec::new());
    assert_eq!(pa.num_regions(), 0);
    assert_eq!(pa.try_allocate(), Attempt::Full);
}
