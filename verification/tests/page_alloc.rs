use kernel_core::mem::page_alloc::TreeAlloc;
use kernel_core::mem::{MAX_HEIGHT, PAGE_SIZE, WORD_BITS};

const WORD_BYTES: usize = 8;

#[test]
fn test_tree_geometry_fns() {
    // Creates a sample tree with given height
    // This creates a tree as a vec of vecs
    let create_tree = |height: usize| {
        assert!(height > 0, "Cannot create tree with height less than 1");

        let mut tree = vec![];
        let mut layer_size = 1;
        let mut total_words = 0;

        for layer in 0..height {
            tree.push(vec![layer; layer_size]);
            total_words += layer_size;
            layer_size *= WORD_BITS;
        }

        (tree, total_words)
    };

    // Test tree geometry functions
    for height in 1..=MAX_HEIGHT {
        let (tree, actual_total_words) = create_tree(height);
        let actual_leaf_words = tree.last().expect("Tree is empty").len();
        let actual_height = tree.len();

        assert_eq!(
            TreeAlloc::total_words_from_leaf_words(actual_leaf_words),
            actual_total_words,
            "total_words_from_leaf_words({actual_leaf_words}) failed"
        );

        assert_eq!(
            TreeAlloc::height_from_leaf_words(actual_leaf_words),
            actual_height,
            "height_from_leaf_words({actual_leaf_words}) failed"
        );

        assert_eq!(
            TreeAlloc::leaf_words_from_total_words(actual_total_words),
            actual_leaf_words,
            "leaf_words_from_total_words({actual_total_words}) failed"
        );

        assert_eq!(
            TreeAlloc::height_from_total_words(actual_total_words),
            actual_height,
            "height_from_total_words({actual_total_words}) failed"
        );
    }
}

#[test]
fn test_tree_layer_fn() {
    // Creates a sample tree with given height
    // This creates a tree as a flat vec
    let create_tree = |height: u32| {
        assert!(height > 0, "Cannot create tree with height less than 1");

        let mut tree = vec![];
        let mut layer_size = 1;
        let mut total_words = 0;

        for layer in 0..height {
            tree.extend(vec![layer; layer_size]);
            total_words += layer_size;
            layer_size *= WORD_BITS;
        }

        (tree, total_words)
    };

    for height in 1..=(MAX_HEIGHT as u32) {
        let (tree, _) = create_tree(height);

        // Test the tree layer function
        for layer in 0..height {
            let layer_slice = TreeAlloc::tree_layer(&tree, layer);
            let expected_layer_len = WORD_BITS.pow(layer);

            assert_eq!(layer_slice.len(), expected_layer_len, "Layer slice length is incorrect");

            for &x in layer_slice {
                assert_eq!(x, layer, "Layer value is incorrect");
            }
        }
    }
}

#[test]
fn test_round_up_to_power() {
    assert_eq!(TreeAlloc::round_up_to_power(10, 5), 25);
    assert_eq!(TreeAlloc::round_up_to_power(50, 4), 64);
    assert_eq!(TreeAlloc::round_up_to_power(65, 4), 256);
    assert_eq!(TreeAlloc::round_up_to_power(64, 8), 64);
    assert_eq!(TreeAlloc::round_up_to_power(64, 64), 64);
}

#[test]
fn test_tree_calc_size() {
    // We have a region of 20 pages, since WORD_BITS = 64, this will need a tree with a single word
    assert_eq!(TreeAlloc::calc_size_for(20 * PAGE_SIZE), Some(WORD_BYTES));

    // We have a region of 70 pages, since WORD_BITS = 64, this will need 2 leaf words, which will then be rounded up
    // to a power of 64, and the tree will have 64 leaf words and 1 root word (height = 2)
    assert_eq!(TreeAlloc::calc_size_for(70 * PAGE_SIZE), Some((64 + 1) * WORD_BYTES));

    // We have a region of 5000 pages, since WORD_BITS = 64, this will need 79 leaf words, which will then be rounded up
    // to a power of 64, and the tree will have 4096 leaf words, 64 middle words and 1 root word (height = 3, total 4161 words)
    assert_eq!(TreeAlloc::calc_size_for(5000 * PAGE_SIZE), Some((4096 + 64 + 1) * WORD_BYTES));
}

#[test]
fn test_tree_height_1() {
    // Lets assume we have a region of 64 pages, since WORD_BITS = 64, this will need a tree of a single word
    assert_eq!(TreeAlloc::calc_size_for(64 * PAGE_SIZE), Some(WORD_BYTES));

    let mut tree_alloc = TreeAlloc::new(1);
    assert_eq!(tree_alloc.num_words(), 1);

    // Allocate 4 pages
    assert_eq!(tree_alloc.allocate(), Some(0));
    assert_eq!(tree_alloc.allocate(), Some(1));
    assert_eq!(tree_alloc.allocate(), Some(2));
    assert_eq!(tree_alloc.allocate(), Some(3));

    assert_eq!(tree_alloc.get_word(0), 0b1111);

    // Free those 4 pages
    for i in 0..4 {
        tree_alloc.free(i);
    }

    assert_eq!(tree_alloc.get_word(0), 0b0);

    // Allocate all pages, all bits should be 1 now
    for _ in 0..64 {
        assert!(tree_alloc.allocate().is_some());
    }

    assert_eq!(tree_alloc.get_word(0), !0b0);

    // Subsequent allocs should fail
    assert_eq!(tree_alloc.allocate(), None);
    assert_eq!(tree_alloc.allocate(), None);
    assert_eq!(tree_alloc.allocate(), None);
    assert_eq!(tree_alloc.allocate(), None);

    // Free all pages, all bits should be 0 now
    for i in 0..64 {
        tree_alloc.free(i);
    }

    assert_eq!(tree_alloc.get_word(0), 0b0);
}

#[test]
fn test_tree_height_2() {
    // Lets assume we have a region of 4096 pages, since WORD_BITS = 64, this will need a tree of a 65 words (height = 2)
    assert_eq!(TreeAlloc::calc_size_for(4096 * PAGE_SIZE), Some(65 * WORD_BYTES));

    let mut tree_alloc = TreeAlloc::new(2);
    assert_eq!(tree_alloc.num_words(), 65);

    // Allocate 4 pages
    assert_eq!(tree_alloc.allocate(), Some(0));
    assert_eq!(tree_alloc.allocate(), Some(1));
    assert_eq!(tree_alloc.allocate(), Some(2));
    assert_eq!(tree_alloc.allocate(), Some(3));

    assert_eq!(tree_alloc.get_word(0), 0b0);
    assert_eq!(tree_alloc.get_word(1), 0b1111);

    // Free those 4 pages
    for i in 0..4 {
        tree_alloc.free(i);
    }

    assert_eq!(tree_alloc.get_word(0), 0b0);
    assert_eq!(tree_alloc.get_word(1), 0b0);

    // Allocate 64 pages, now the 0th word in layer 1 should be full and the 0th bit in the
    // root word should reflect that
    for _ in 0..64 {
        assert!(tree_alloc.allocate().is_some());
    }

    assert_eq!(tree_alloc.get_word(0), 0b1);
    assert_eq!(tree_alloc.get_word(1), !0b0);

    // Free those 64 pages
    for i in 0..64 {
        tree_alloc.free(i);
    }

    assert_eq!(tree_alloc.get_word(0), 0b0);
    assert_eq!(tree_alloc.get_word(1), 0b0);

    // Allocate 128 pages, now the 1st word in layer 1 should be full as well and the 1st bit
    // in the root word should reflect that
    for _ in 0..128 {
        assert!(tree_alloc.allocate().is_some());
    }

    assert_eq!(tree_alloc.get_word(0), 0b11);
    assert_eq!(tree_alloc.get_word(1), !0b0);
    assert_eq!(tree_alloc.get_word(2), !0b0);

    // Free those 128 pages
    for i in 0..128 {
        tree_alloc.free(i);
    }

    assert_eq!(tree_alloc.get_word(0), 0b0);
    assert_eq!(tree_alloc.get_word(1), 0b0);
    assert_eq!(tree_alloc.get_word(2), 0b0);

    // Allocate all pages, all bits should be 1 now
    for _ in 0..4096 {
        assert!(tree_alloc.allocate().is_some());
    }

    for i in 0..tree_alloc.num_words() {
        assert_eq!(tree_alloc.get_word(i), !0b0);
    }

    // Subsequent allocs should fail
    assert_eq!(tree_alloc.allocate(), None);
    assert_eq!(tree_alloc.allocate(), None);
    assert_eq!(tree_alloc.allocate(), None);
    assert_eq!(tree_alloc.allocate(), None);

    // Free all pages, all bits should be 0 now
    for i in 0..4096 {
        tree_alloc.free(i);
    }

    for i in 0..tree_alloc.num_words() {
        assert_eq!(tree_alloc.get_word(i), 0b0);
    }
}

#[test]
fn test_tree_all_heights() {
    // Test for heights up to 4 because otherwise the test will take forever
    for height in 1..=4 {
        println!("Testing height = {height}");

        let mut tree_alloc = TreeAlloc::new(height);
        let expected_max_allocs = WORD_BITS.pow(height as u32);

        let mut prev_page_idx = None;

        for _ in 0..expected_max_allocs {
            let page_idx = tree_alloc.allocate().expect("Alloc failed unexpectedly");

            if let Some(prev_page_idx) = prev_page_idx {
                assert_eq!(page_idx, prev_page_idx + 1);
            } else {
                assert_eq!(page_idx, 0);
            }

            prev_page_idx = Some(page_idx);
        }

        // All bits should be 1 now
        for i in 0..tree_alloc.num_words() {
            assert_eq!(tree_alloc.get_word(i), !0b0);
        }

        // Subsequent allocs should fail
        assert!(tree_alloc.allocate().is_none());
        assert!(tree_alloc.allocate().is_none());
        assert!(tree_alloc.allocate().is_none());
        assert!(tree_alloc.allocate().is_none());

        // Free all pages, all bits should be 0 now
        for i in 0..expected_max_allocs {
            tree_alloc.free(i);
        }

        for i in 0..tree_alloc.num_words() {
            assert_eq!(tree_alloc.get_word(i), 0b0);
        }
    }
}
