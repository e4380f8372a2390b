use kernel_core::ordered_map::OrderedMap;
use std::collections::BTreeMap;

/// Keys of the node reached by `path`, which must exist.
fn keys_at<V>(map: &OrderedMap<V>, path: &[usize]) -> Vec<u64> {
    map.node_keys(&path.to_vec()).expect("no node at this path")
}

/// Checks the B-tree invariants of the subtree at `path` and returns the
/// depth of its leaves below it.
fn check_subtree<V>(map: &OrderedMap<V>, path: &mut Vec<usize>, lo: Option<u64>, hi: Option<u64>) -> usize {
    let keys = map.node_keys(path).expect("no node at this path");
    let is_root = path.is_empty();

    assert!(keys.len() <= 8, "node has more than 8 keys");
    if !is_root {
        assert!(keys.len() >= 4, "node other than the root has fewer than 4 keys");
    }
    for pair in keys.windows(2) {
        assert!(pair[0] < pair[1], "keys of a node are not strictly ascending");
    }
    for &key in &keys {
        if let Some(lo) = lo {
            assert!(lo < key, "key not above the separator on its left");
        }
        if let Some(hi) = hi {
            assert!(key < hi, "key not below the separator on its right");
        }
    }

    // A node is a leaf if it has no first child
    path.push(0);
    let leaf = map.node_keys(path).is_none();
    path.pop();
    if leaf {
        return 0;
    }
    assert!(!keys.is_empty(), "inner node without keys");

    let mut depth = None;
    for child in 0..=keys.len() {
        let child_lo = if child == 0 { lo } else { Some(keys[child - 1]) };
        let child_hi = if child == keys.len() { hi } else { Some(keys[child]) };
        path.push(child);
        let child_depth = check_subtree(map, path, child_lo, child_hi);
        path.pop();
        match depth {
            None => depth = Some(child_depth),
            Some(depth) => assert_eq!(depth, child_depth, "leaves at different depths"),
        }
    }
    // No child beyond the last
    path.push(keys.len() + 1);
    assert!(map.node_keys(path).is_none(), "inner node with too many children");
    path.pop();

    depth.unwrap() + 1
}

fn check_invariants<V>(map: &OrderedMap<V>) -> usize {
    check_subtree(map, &mut Vec::new(), None, None)
}

/// A small deterministic generator of test keys.
struct Lcg(u64);

impl Lcg {
    fn next(&mut self) -> u64 {
        self.0 = self.0.wrapping_mul(6364136223846793005).wrapping_add(1442695040888963407);
        self.0 >> 33
    }
}

#[test]
fn test_empty_map() {
    let map: OrderedMap<u32> = OrderedMap::new();
    assert_eq!(map.get(0), None);
    assert_eq!(map.get(u64::MAX), None);
    assert_eq!(map.get_nearest_floor(u64::MAX), None);
    assert_eq!(keys_at(&map, &[]), Vec::<u64>::new());
    assert!(map.node_keys(&vec![0]).is_none());
}

#[test]
fn test_insert_and_get() {
    let mut map = OrderedMap::new();
    map.insert(7, "seven");
    map.insert(3, "three");
    map.insert(u64::MAX, "max");
    map.insert(0, "zero");

    assert_eq!(map.get(7), Some(&"seven"));
    assert_eq!(map.get(3), Some(&"three"));
    assert_eq!(map.get(u64::MAX), Some(&"max"));
    assert_eq!(map.get(0), Some(&"zero"));
    assert_eq!(map.get(5), None);
    assert_eq!(keys_at(&map, &[]), vec![0, 3, 7, u64::MAX]);
}

#[test]
fn test_insert_replaces_value() {
    let mut map = OrderedMap::new();
    map.insert(1, 10);
    map.insert(1, 11);
    assert_eq!(map.get(1), Some(&11));
    assert_eq!(keys_at(&map, &[]), vec![1]);
}

#[test]
fn test_get_mut_changes_value() {
    let mut map = OrderedMap::new();
    for key in 0..100u64 {
        map.insert(key, key * 2);
    }
    *map.get_mut(42).unwrap() = 1000;
    assert_eq!(map.get(42), Some(&1000));
    assert_eq!(map.get(41), Some(&82));
    assert_eq!(map.get(43), Some(&86));
    assert!(map.get_mut(100).is_none());
    check_invariants(&map);
}

#[test]
fn test_split_at_root() {
    // Order 8, insert keys 1..9 in order
    let mut map = OrderedMap::new();
    for key in 1..=8u64 {
        map.insert(key, key);
    }
    // After 8 inserts the root has keys [1..8]
    assert_eq!(keys_at(&map, &[]), vec![1, 2, 3, 4, 5, 6, 7, 8]);
    assert!(map.node_keys(&vec![0]).is_none());

    // The 9th insert splits: new root {5}, left {1,2,3,4}, right {6,7,8,9}
    map.insert(9, 9);
    assert_eq!(keys_at(&map, &[]), vec![5]);
    assert_eq!(keys_at(&map, &[0]), vec![1, 2, 3, 4]);
    assert_eq!(keys_at(&map, &[1]), vec![6, 7, 8, 9]);
    assert!(map.node_keys(&vec![2]).is_none());
    for key in 1..=9u64 {
        assert_eq!(map.get(key), Some(&key));
    }
    assert_eq!(check_invariants(&map), 1);
}

#[test]
fn test_split_promotes_inserted_key() {
    // The key that goes in the middle of a full node is the promoted one
    let mut map = OrderedMap::new();
    for key in [10u64, 20, 30, 40, 60, 70, 80, 90] {
        map.insert(key, ());
    }
    map.insert(50, ());
    assert_eq!(keys_at(&map, &[]), vec![50]);
    assert_eq!(keys_at(&map, &[0]), vec![10, 20, 30, 40]);
    assert_eq!(keys_at(&map, &[1]), vec![60, 70, 80, 90]);
}

#[test]
fn test_split_with_key_in_lower_half() {
    let mut map = OrderedMap::new();
    for key in [10u64, 20, 30, 40, 50, 60, 70, 80] {
        map.insert(key, ());
    }
    map.insert(15, ());
    assert_eq!(keys_at(&map, &[]), vec![40]);
    assert_eq!(keys_at(&map, &[0]), vec![10, 15, 20, 30]);
    assert_eq!(keys_at(&map, &[1]), vec![50, 60, 70, 80]);
}

#[test]
fn test_remove_with_underflow_rotates_from_right() {
    // Build {50,100}/[{10,20,30,40},{60,65,70,80,90},{110,120,130,140}]
    let mut map = OrderedMap::new();
    for key in [10u64, 20, 30, 40, 50, 60, 70, 80, 90, 100, 110, 120, 130, 140, 65] {
        map.insert(key, key);
    }
    assert_eq!(keys_at(&map, &[]), vec![50, 100]);
    assert_eq!(keys_at(&map, &[0]), vec![10, 20, 30, 40]);
    assert_eq!(keys_at(&map, &[1]), vec![60, 65, 70, 80, 90]);
    assert_eq!(keys_at(&map, &[2]), vec![110, 120, 130, 140]);

    // Removing 10 underflows the left leaf; the right sibling has a key to
    // spare, so 60 is pulled through the parent's 50
    assert_eq!(map.remove(10), Some(10));
    assert_eq!(keys_at(&map, &[]), vec![60, 100]);
    assert_eq!(keys_at(&map, &[0]), vec![20, 30, 40, 50]);
    assert_eq!(keys_at(&map, &[1]), vec![65, 70, 80, 90]);
    assert_eq!(keys_at(&map, &[2]), vec![110, 120, 130, 140]);
    check_invariants(&map);
}

#[test]
fn test_remove_with_underflow_rotates_from_left() {
    let mut map = OrderedMap::new();
    for key in [10u64, 20, 30, 40, 50, 60, 70, 80, 90, 100, 110, 120, 130, 140, 65] {
        map.insert(key, key);
    }
    // Removing 140 underflows the right leaf; its left sibling has a key to
    // spare, so 90 is pulled through the parent's 100
    assert_eq!(map.remove(140), Some(140));
    assert_eq!(keys_at(&map, &[]), vec![50, 90]);
    assert_eq!(keys_at(&map, &[0]), vec![10, 20, 30, 40]);
    assert_eq!(keys_at(&map, &[1]), vec![60, 65, 70, 80]);
    assert_eq!(keys_at(&map, &[2]), vec![100, 110, 120, 130]);
    check_invariants(&map);
}

#[test]
fn test_remove_with_underflow_merges() {
    let mut map = OrderedMap::new();
    for key in 1..=9u64 {
        map.insert(key, key);
    }
    // {5}/[{1,2,3,4},{6,7,8,9}]: removing 9 underflows the right leaf, the
    // left sibling has no key to spare, so the two are merged with 5 and
    // the root, left without keys, gives way to the merged node
    assert_eq!(map.remove(9), Some(9));
    assert_eq!(keys_at(&map, &[]), vec![1, 2, 3, 4, 5, 6, 7, 8]);
    assert!(map.node_keys(&vec![0]).is_none());
    assert_eq!(check_invariants(&map), 0);
}

#[test]
fn test_remove_from_inner_node_replaces_from_left() {
    let mut map = OrderedMap::new();
    for key in [10u64, 20, 30, 40, 50, 60, 70, 80, 90, 35] {
        map.insert(key, key);
    }
    assert_eq!(keys_at(&map, &[]), vec![50]);
    assert_eq!(keys_at(&map, &[0]), vec![10, 20, 30, 35, 40]);
    // The left child has a key to spare: its largest key takes the place
    assert_eq!(map.remove(50), Some(50));
    assert_eq!(keys_at(&map, &[]), vec![40]);
    assert_eq!(keys_at(&map, &[0]), vec![10, 20, 30, 35]);
    assert_eq!(keys_at(&map, &[1]), vec![60, 70, 80, 90]);
    check_invariants(&map);
}

#[test]
fn test_remove_from_inner_node_replaces_from_right() {
    let mut map = OrderedMap::new();
    for key in [10u64, 20, 30, 40, 50, 60, 70, 80, 90, 65] {
        map.insert(key, key);
    }
    assert_eq!(keys_at(&map, &[1]), vec![60, 65, 70, 80, 90]);
    // Only the right child has a key to spare: its smallest key takes the place
    assert_eq!(map.remove(50), Some(50));
    assert_eq!(keys_at(&map, &[]), vec![60]);
    assert_eq!(keys_at(&map, &[0]), vec![10, 20, 30, 40]);
    assert_eq!(keys_at(&map, &[1]), vec![65, 70, 80, 90]);
    check_invariants(&map);
}

#[test]
fn test_remove_from_inner_node_in_place() {
    let mut map = OrderedMap::new();
    for key in 1..=9u64 {
        map.insert(key, key);
    }
    // Neither child of the root has a key to spare: the key goes, and the
    // two leaves beside it are joined
    assert_eq!(map.remove(5), Some(5));
    assert_eq!(keys_at(&map, &[]), vec![1, 2, 3, 4, 6, 7, 8, 9]);
    assert!(map.node_keys(&vec![0]).is_none());
    check_invariants(&map);
}

#[test]
fn test_remove_absent_key() {
    let mut map = OrderedMap::new();
    for key in 1..=20u64 {
        map.insert(key * 2, key);
    }
    assert_eq!(map.remove(7), None);
    assert_eq!(map.remove(0), None);
    assert_eq!(map.remove(100), None);
    for key in 1..=20u64 {
        assert_eq!(map.get(key * 2), Some(&key));
    }
    check_invariants(&map);
}

#[test]
fn test_remove_last_key_leaves_empty_map() {
    let mut map = OrderedMap::new();
    map.insert(1, 'a');
    assert_eq!(map.remove(1), Some('a'));
    assert_eq!(map.get(1), None);
    assert_eq!(keys_at(&map, &[]), Vec::<u64>::new());
    map.insert(2, 'b');
    assert_eq!(map.get(2), Some(&'b'));
}

#[test]
fn test_floor_lookup() {
    let mut map = OrderedMap::new();
    map.insert(10, "a");
    map.insert(20, "b");
    map.insert(40, "c");

    assert_eq!(map.get_nearest_floor(25), Some((20, &"b")));
    assert_eq!(map.get_nearest_floor(10), Some((10, &"a")));
    assert_eq!(map.get_nearest_floor(5), None);
    assert_eq!(map.get_nearest_floor(100), Some((40, &"c")));
}

#[test]
fn test_floor_lookup_in_deep_tree() {
    let mut map = OrderedMap::new();
    for key in 0..500u64 {
        map.insert(key * 10 + 5, key);
    }
    assert!(check_invariants(&map) >= 2);
    assert_eq!(map.get_nearest_floor(4), None);
    for key in 0..500u64 {
        assert_eq!(map.get_nearest_floor(key * 10 + 5), Some((key * 10 + 5, &key)));
        assert_eq!(map.get_nearest_floor(key * 10 + 9), Some((key * 10 + 5, &key)));
        assert_eq!(map.get_nearest_floor(key * 10 + 14), Some((key * 10 + 5, &key)));
    }
    assert_eq!(map.get_nearest_floor(u64::MAX), Some((4995, &499)));
}

#[test]
fn test_remove_after_insert_restores_map() {
    let mut map = OrderedMap::new();
    for key in 0..200u64 {
        map.insert(key * 3, key);
    }
    map.insert(301, 7777);
    assert_eq!(map.remove(301), Some(7777));
    for key in 0..200u64 {
        assert_eq!(map.get(key * 3), Some(&key));
    }
    assert_eq!(map.get(301), None);
    check_invariants(&map);
}

#[test]
fn test_ascending_and_descending_inserts() {
    let mut up = OrderedMap::new();
    let mut down = OrderedMap::new();
    for key in 0..2000u64 {
        up.insert(key, key);
        down.insert(1999 - key, key);
    }
    assert!(check_invariants(&up) >= 3);
    assert!(check_invariants(&down) >= 3);
    for key in 0..2000u64 {
        assert_eq!(up.get(key), Some(&key));
        assert_eq!(down.get(key), Some(&(1999 - key)));
    }
}

#[test]
fn test_remove_everything_from_deep_tree() {
    let mut map = OrderedMap::new();
    for key in 0..3000u64 {
        map.insert(key, key + 1);
    }
    assert!(check_invariants(&map) >= 3);
    // Remove from the middle outwards, so that inner nodes lose keys too
    for step in 0..1500u64 {
        assert_eq!(map.remove(1500 + step), Some(1501 + step));
        assert_eq!(map.remove(1499 - step), Some(1500 - step));
        if step % 100 == 0 {
            check_invariants(&map);
        }
    }
    assert_eq!(keys_at(&map, &[]), Vec::<u64>::new());
    assert!(map.node_keys(&vec![0]).is_none());
}

#[test]
fn test_against_reference_map() {
    let mut rng = Lcg(69420);
    let mut map = OrderedMap::new();
    let mut reference = BTreeMap::new();

    for round in 0..20000u64 {
        let key = rng.next() % 700;
        match rng.next() % 4 {
            0 | 1 => {
                map.insert(key, round);
                reference.insert(key, round);
            }
            2 => {
                assert_eq!(map.remove(key), reference.remove(&key));
            }
            _ => {
                assert_eq!(map.get(key), reference.get(&key));
                let floor = reference.range(..=key).next_back().map(|(k, v)| (*k, v));
                assert_eq!(map.get_nearest_floor(key), floor);
            }
        }
        if round % 500 == 0 {
            check_invariants(&map);
        }
    }

    check_invariants(&map);
    for key in 0..700u64 {
        assert_eq!(map.get(key), reference.get(&key));
    }
    assert_eq!(map.keys(), reference.keys().copied().collect::<Vec<u64>>());
}

#[test]
fn test_keys_are_listed_in_order() {
    let mut map = OrderedMap::new();
    assert_eq!(map.keys(), Vec::<u64>::new());
    for key in [50u64, 10, 40, 20, 30, u64::MAX, 0] {
        map.insert(key, ());
    }
    assert_eq!(map.keys(), vec![0, 10, 20, 30, 40, 50, u64::MAX]);

    let mut map = OrderedMap::new();
    for key in (0..1000u64).rev() {
        map.insert(key * 7, key);
    }
    assert_eq!(map.keys(), (0..1000u64).map(|key| key * 7).collect::<Vec<u64>>());
}

#[test]
fn test_remove_after_insert_may_reshape_the_tree() {
    let mut map = OrderedMap::new();
    for key in [10u64, 20, 30, 40, 50, 60, 70, 80, 90, 100, 110, 120, 130, 140] {
        map.insert(key, ());
    }
    for key in [61u64, 62, 63, 64, 150] {
        map.insert(key, ());
    }
    // A full leaf in the middle, and a leaf with a key to spare on its right
    assert_eq!(keys_at(&map, &[]), vec![50, 100]);
    assert_eq!(keys_at(&map, &[0]), vec![10, 20, 30, 40]);
    assert_eq!(keys_at(&map, &[1]), vec![60, 61, 62, 63, 64, 70, 80, 90]);
    assert_eq!(keys_at(&map, &[2]), vec![110, 120, 130, 140, 150]);
    let before = map.keys();

    // The insert splits the full leaf
    map.insert(65, ());
    assert_eq!(keys_at(&map, &[]), vec![50, 64, 100]);
    assert_eq!(keys_at(&map, &[1]), vec![60, 61, 62, 63]);
    assert_eq!(keys_at(&map, &[2]), vec![65, 70, 80, 90]);

    // The remove mends the underflow by a rotation from the right, not by
    // undoing the split
    assert_eq!(map.remove(65), Some(()));
    assert_eq!(keys_at(&map, &[]), vec![50, 64, 110]);
    assert_eq!(keys_at(&map, &[0]), vec![10, 20, 30, 40]);
    assert_eq!(keys_at(&map, &[1]), vec![60, 61, 62, 63]);
    assert_eq!(keys_at(&map, &[2]), vec![70, 80, 90, 100]);
    assert_eq!(keys_at(&map, &[3]), vec![120, 130, 140, 150]);

    // The contents are as they were before the insert
    assert_eq!(map.keys(), before);
    check_invariants(&map);
}
