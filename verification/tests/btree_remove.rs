use homelab_db::storage::btree::btree::PagingBtree;
use homelab_db::storage::btree::internal_page::Internal;
use homelab_db::storage::btree::leaf_page::Leaf;
use homelab_db::storage::btree::location::{Location, PageStore, RefPageLocation, RefValueLocation};
use homelab_db::storage::btree::page::Page;

pub const PAGE_SIZE: usize = 4096;
pub const MAX_KEYS_PER_PAGE: usize = 10;

fn create_loc(value: usize) -> Location {
    Location::Value(RefValueLocation { size: value, start_offset: value as u64 })
}

fn is_loc_equal(l_loc: Location, r_loc: Location) -> bool {
    match (l_loc, r_loc) {
        (Location::Value(l_v), Location::Value(r_v)) => {
            l_v.size == r_v.size && l_v.start_offset == r_v.start_offset
        }
        (Location::Page(l_p), Location::Page(r_p)) => l_p.start_offset == r_p.start_offset,
        _ => false,
    }
}

fn make_tree(storage: &mut PageStore) -> PagingBtree {
    let location = RefPageLocation { start_offset: 0 };
    let root = Page::Leaf(Leaf { keys: Vec::new(), values: Vec::new() });
    location.write_page(&root, storage);
    PagingBtree { file_path: String::new(), root_page_location: location }
}

fn collect_keys(storage: &PageStore, page: &Page, out: &mut Vec<Vec<u8>>) {
    match page {
        Page::Leaf(leaf) => {
            for k in &leaf.keys {
                out.push(k.clone());
            }
        }
        Page::Internal(Internal { pages, .. }) => {
            for loc in pages {
                let child = loc.load_page(storage);
                collect_keys(storage, &child, out);
            }
        }
    }
}

fn check_is_root_sorted(tree: &mut PagingBtree, storage: &mut PageStore) {
    let root = tree.root_page_location.load_page(storage);
    if let Page::Internal(internal) = &root {
        let mut seps = internal.separators.clone();
        seps.sort();
        assert_eq!(seps, internal.separators, "root separators are not sorted");
    }
    let mut keys = Vec::new();
    collect_keys(storage, &root, &mut keys);
    let mut sorted = keys.clone();
    sorted.sort();
    assert_eq!(keys, sorted, "tree keys are not in sorted order");
}

#[test]
fn test_remove_existing_key() {
    let mut storage = PageStore::with_blank_pages(1);
    let mut tree = make_tree(&mut storage);

    let loc10 = create_loc(10);
    tree.add(&[1], loc10, &mut storage).expect("insert failed");
    let loc20 = create_loc(20);
    tree.add(&[2], loc20, &mut storage).expect("insert failed");
    let loc30 = create_loc(30);
    tree.add(&[3], loc30, &mut storage).expect("insert failed");

    // Remove the middle key
    tree.remove(&[2], &mut storage);

    // Key should no longer be findable
    assert!(
        tree.get(&[2], &mut storage).is_none(),
        "removed key should not be found"
    );

    // Other keys should still be present
    let r_loc1 = tree.get(&[1], &mut storage).unwrap();
    let r_loc3 = tree.get(&[3], &mut storage).unwrap();
    assert!(is_loc_equal(loc10, r_loc1));
    assert!(is_loc_equal(loc30, r_loc3));
}

#[test]
fn test_remove_non_existent_key() {
    let mut storage = PageStore::with_blank_pages(1);
    let mut tree = make_tree(&mut storage);

    let loc10 = create_loc(10);
    tree.add(&[1], loc10, &mut storage).expect("insert failed");

    // Try to remove a key that doesn't exist
    tree.remove(&[99], &mut storage);

    // Original key should still be there
    let r_loc1 = tree.get(&[1], &mut storage).unwrap();
    assert!(is_loc_equal(loc10, r_loc1));
}

#[test]
fn test_remove_from_single_node_leaf() {
    let mut storage = PageStore::with_blank_pages(1);
    let mut tree = make_tree(&mut storage);

    let loc50 = create_loc(50);
    tree.add(&[5], loc50, &mut storage).expect("insert failed");

    tree.remove(&[5], &mut storage);

    assert!(
        tree.get(&[5], &mut storage).is_none(),
        "key should be removed"
    );
}

// // ── Remove with tree restructuring ───────────────────────────────────────────

#[test]
fn test_remove_triggers_underflow() {
    let mut storage = PageStore::with_blank_pages(1);
    let mut tree = make_tree(&mut storage);

    // Fill a page exactly to MAX_KEYS_PER_PAGE, then remove some
    // to trigger underflow (below MAX_KEYS_PER_PAGE/2 = 4)
    for i in 0u8..6 {
        let loc = create_loc(i as usize);
        tree.add(&[i], loc, &mut storage).expect("insert failed");
    }

    // Remove enough keys to cause underflow
    // After: [0, 1, 4, 5] - 4 keys is min threshold
    tree.remove(&[1], &mut storage);
    tree.remove(&[2], &mut storage);
    tree.remove(&[3], &mut storage);

    // Remaining keys should still be findable
    assert!(tree.get(&[0], &mut storage).is_some());
    assert!(tree.get(&[4], &mut storage).is_some());
    assert!(tree.get(&[5], &mut storage).is_some());
}

#[test]
fn test_remove_all_keys() {
    let mut storage = PageStore::with_blank_pages(1);
    let mut tree = make_tree(&mut storage);

    for i in 0u8..5 {
        let loc = create_loc(i as usize);
        tree.add(&[i], loc, &mut storage).expect("insert failed");
    }

    // Remove all keys
    for i in 0u8..5 {
        tree.remove(&[i], &mut storage);
    }

    // Tree should be empty
    for i in 0u8..5 {
        assert!(
            tree.get(&[i], &mut storage).is_none(),
            "key {} should be removed",
            i
        );
    }
}

#[test]
fn test_remove_then_get_returns_none() {
    let mut storage = PageStore::with_blank_pages(1);
    let mut tree = make_tree(&mut storage);

    let loc99 = create_loc(99);
    tree.add(&[42], loc99, &mut storage).expect("insert failed");

    assert!(tree.get(&[42], &mut storage).is_some());

    tree.remove(&[42], &mut storage);

    assert!(tree.get(&[42], &mut storage).is_none());
}

// // ── Multiple removes ──────────────────────────────────────────────────────────

#[test]
fn test_remove_first_key() {
    let mut storage = PageStore::with_blank_pages(1);
    let mut tree = make_tree(&mut storage);

    let loc10 = create_loc(10);
    tree.add(&[1], loc10, &mut storage).expect("insert failed");

    let loc20 = create_loc(20);
    tree.add(&[2], loc20, &mut storage).expect("insert failed");

    let loc30 = create_loc(30);
    tree.add(&[3], loc30, &mut storage).expect("insert failed");

    tree.remove(&[1], &mut storage);

    assert!(tree.get(&[1], &mut storage).is_none());

    let r_loc2 = tree.get(&[2], &mut storage).unwrap();
    let r_loc3 = tree.get(&[3], &mut storage).unwrap();

    assert!(is_loc_equal(r_loc2, loc20));
    assert!(is_loc_equal(r_loc3, loc30));
}

#[test]
fn test_remove_last_key() {
    let mut storage = PageStore::with_blank_pages(1);
    let mut tree = make_tree(&mut storage);

    let loc10 = create_loc(10);
    tree.add(&[1], loc10, &mut storage).expect("insert failed");

    let loc20 = create_loc(20);
    tree.add(&[2], loc20, &mut storage).expect("insert failed");

    let loc30 = create_loc(30);
    tree.add(&[3], loc30, &mut storage).expect("insert failed");

    tree.remove(&[3], &mut storage);

    let r_loc1 = tree.get(&[1], &mut storage).unwrap();
    let r_loc2 = tree.get(&[2], &mut storage).unwrap();
    assert!(is_loc_equal(r_loc1, loc10));
    assert!(is_loc_equal(r_loc2, loc20));
    assert!(tree.get(&[3], &mut storage).is_none());
}

// // ── Remove after splits ──────────────────────────────────────────────────────

#[test]
fn test_remove_end_then_middle_then_add_then_remove_again() {
    let mut storage = PageStore::with_blank_pages(1);
    let mut tree = make_tree(&mut storage);

    // Phase 1: Add initial elements (10x: 120 instead of 12)
    for i in 0u16..120 {
        let loc = create_loc(i as usize);
        tree.add(&[i as u8], loc, &mut storage)
            .expect("insert failed");
    }

    // Phase 2: Remove from end (10x: keys 100-119 instead of 10-11)
    for i in 100u16..120 {
        tree.remove(&[i as u8], &mut storage);
    }

    for i in 100u16..120 {
        assert!(
            tree.get(&[i as u8], &mut storage).is_none(),
            "end key {} should be removed",
            i
        );
    }

    // Phase 3: Remove from middle (10x: keys 40-59 instead of 4-6)
    for i in 40u16..60 {
        tree.remove(&[i as u8], &mut storage);
    }

    for i in 40u16..60 {
        assert!(
            tree.get(&[i as u8], &mut storage).is_none(),
            "middle key {} should be removed",
            i
        );
    }

    // Phase 4: Add new elements after removals (10x: 200-249 instead of 50-54)
    for i in 200u16..250 {
        let loc = create_loc(i as usize);
        tree.add(&[i as u8], loc, &mut storage)
            .expect("insert failed");
    }

    // Phase 5: Remove from new elements (10x: every other from 200-249)
    for i in (200u16..250).step_by(2) {
        tree.remove(&[i as u8], &mut storage);
    }

    for i in (200u16..250).step_by(2) {
        assert!(
            tree.get(&[i as u8], &mut storage).is_none(),
            "new key {} should be removed",
            i
        );
    }

    // Verify expected remaining keys
    // Original keys that should remain: 0-39, 60-99
    for i in 0u16..40 {
        assert!(
            tree.get(&[i as u8], &mut storage).is_some(),
            "key {} should be present",
            i
        );
    }
    for i in 60u16..100 {
        assert!(
            tree.get(&[i as u8], &mut storage).is_some(),
            "key {} should be present",
            i
        );
    }
    // New keys that should remain: odd ones from 200-249
    for i in (201u16..250).step_by(2) {
        assert!(
            tree.get(&[i as u8], &mut storage).is_some(),
            "new key {} should be present",
            i
        );
    }

    // Verify removed keys
    for i in 40u16..60 {
        assert!(
            tree.get(&[i as u8], &mut storage).is_none(),
            "key {} should be removed",
            i
        );
    }
    for i in 100u16..120 {
        assert!(
            tree.get(&[i as u8], &mut storage).is_none(),
            "key {} should be removed",
            i
        );
    }
    for i in (200u16..250).step_by(2) {
        assert!(
            tree.get(&[i as u8], &mut storage).is_none(),
            "new key {} should be removed",
            i
        );
    }

    check_is_root_sorted(&mut tree, &mut storage);
}

#[test]
fn test_remove_all_except_one_then_add_then_remove_remaining() {
    let mut storage = PageStore::with_blank_pages(1);
    let mut tree = make_tree(&mut storage);

    // Phase 1: Add elements (10x: 80 instead of 8)
    for i in 0u16..80 {
        let loc = create_loc(i as usize);
        tree.add(&[i as u8], loc, &mut storage)
            .expect("insert failed");
    }

    // Phase 2: Remove all except one (key 30-39 instead of key 3)
    for i in 0u16..80 {
        if !(30..40).contains(&i) {
            tree.remove(&[i as u8], &mut storage);
        }
    }

    // Keys 30-39 should remain
    for i in 30u16..40 {
        assert!(
            tree.get(&[i as u8], &mut storage).is_some(),
            "key {} should remain",
            i
        );
    }
    for i in 0u16..80 {
        if !(30..40).contains(&i) {
            assert!(
                tree.get(&[i as u8], &mut storage).is_none(),
                "key {} should be removed",
                i
            );
        }
    }

    // Phase 3: Add new elements (10x: 200-249 instead of 20-24)
    for i in 200u16..250 {
        let loc = create_loc(i as usize);
        tree.add(&[i as u8], loc, &mut storage)
            .expect("insert failed");
    }

    // Phase 4: Remove the last remaining original keys
    for i in 30u16..40 {
        tree.remove(&[i as u8], &mut storage);
    }
    for i in 30u16..40 {
        assert!(
            tree.get(&[i as u8], &mut storage).is_none(),
            "key {} should be removed",
            i
        );
    }

    // Only new keys should remain
    for i in 200u16..250 {
        assert!(
            tree.get(&[i as u8], &mut storage).is_some(),
            "new key {} should exist",
            i
        );
    }

    check_is_root_sorted(&mut tree, &mut storage);
}

#[test]
fn test_remove_middle_elements_interleaved_with_adds() {
    let mut storage = PageStore::with_blank_pages(1);
    let mut tree = make_tree(&mut storage);

    // Phase 1: Add initial set (10x: 60 instead of 6)
    for i in 0u16..60 {
        let loc = create_loc(i as usize);
        tree.add(&[i as u8], loc, &mut storage)
            .expect("insert failed");
    }

    // Remove from middle (10x: keys 20-39 instead of 2-3)
    for i in 20u16..40 {
        tree.remove(&[i as u8], &mut storage);
    }

    // Add more (10x: 100-139 instead of 10-13)
    for i in 100u16..140 {
        let loc = create_loc(i as usize);
        tree.add(&[i as u8], loc, &mut storage)
            .expect("insert failed");
    }

    // Remove from middle again (10x: keys 110-119 instead of 11)
    for i in 110u16..120 {
        tree.remove(&[i as u8], &mut storage);
    }

    // Add more (10x: 200-219 instead of 20-21)
    for i in 200u16..220 {
        let loc = create_loc(i as usize);
        tree.add(&[i as u8], loc, &mut storage)
            .expect("insert failed");
    }

    // Verify final state - removed keys
    for i in 20u16..40 {
        assert!(
            tree.get(&[i as u8], &mut storage).is_none(),
            "key {} should be removed",
            i
        );
    }
    for i in 110u16..120 {
        assert!(
            tree.get(&[i as u8], &mut storage).is_none(),
            "key {} should be removed",
            i
        );
    }

    // Verify final state - remaining keys
    for i in 0u16..20 {
        assert!(
            tree.get(&[i as u8], &mut storage).is_some(),
            "key {} should exist",
            i
        );
    }
    for i in 40u16..60 {
        assert!(
            tree.get(&[i as u8], &mut storage).is_some(),
            "key {} should exist",
            i
        );
    }
    for i in 100u16..110 {
        assert!(
            tree.get(&[i as u8], &mut storage).is_some(),
            "key {} should exist",
            i
        );
    }
    for i in 120u16..140 {
        assert!(
            tree.get(&[i as u8], &mut storage).is_some(),
            "key {} should exist",
            i
        );
    }
    for i in 200u16..220 {
        assert!(
            tree.get(&[i as u8], &mut storage).is_some(),
            "key {} should exist",
            i
        );
    }

    check_is_root_sorted(&mut tree, &mut storage);
}

#[test]
fn test_remove_end_then_add_until_split_then_remove_again() {
    let mut storage = PageStore::with_blank_pages(1);
    let mut tree = make_tree(&mut storage);

    // Phase 1: Add initial elements (10x: 50 instead of 5)
    for i in 0u16..50 {
        let loc = create_loc(i as usize);
        tree.add(&[i as u8], loc, &mut storage)
            .expect("insert failed");
    }

    // Phase 2: Remove from end (10x: keys 30-49 instead of 3-4)
    for i in 30u16..50 {
        tree.remove(&[i as u8], &mut storage);
    }

    // Phase 3: Add many new elements to trigger splits (10x: 150-249 instead of 50-79)
    for i in 150u16..250 {
        let loc = create_loc(i as usize);
        tree.add(&[i as u8], loc, &mut storage)
            .expect("insert failed");
    }

    // Phase 4: Remove from various positions in the split tree (10x)
    // from beginning: 0-9
    for i in 0u16..10 {
        tree.remove(&[i as u8], &mut storage);
    }
    // from middle of new range: 190-199
    for i in 190u16..200 {
        tree.remove(&[i as u8], &mut storage);
    }
    // from end of new range: 240-249
    for i in 240u16..250 {
        tree.remove(&[i as u8], &mut storage);
    }

    // Verify removals
    for i in 0u16..10 {
        assert!(
            tree.get(&[i as u8], &mut storage).is_none(),
            "key {} should be removed",
            i
        );
    }
    for i in 190u16..200 {
        assert!(
            tree.get(&[i as u8], &mut storage).is_none(),
            "key {} should be removed",
            i
        );
    }
    for i in 240u16..250 {
        assert!(
            tree.get(&[i as u8], &mut storage).is_none(),
            "key {} should be removed",
            i
        );
    }

    // Verify some still exist
    for i in 10u16..30 {
        assert!(
            tree.get(&[i as u8], &mut storage).is_some(),
            "key {} should exist",
            i
        );
    }
    for i in 150u16..190 {
        assert!(
            tree.get(&[i as u8], &mut storage).is_some(),
            "key {} should exist",
            i
        );
    }
    for i in 200u16..240 {
        assert!(
            tree.get(&[i as u8], &mut storage).is_some(),
            "key {} should exist",
            i
        );
    }

    check_is_root_sorted(&mut tree, &mut storage);
}

// // ── Empty tree ────────────────────────────────────────────────────────────────

#[test]
fn test_empty_tree_get_returns_none() {
    let mut storage = PageStore::with_blank_pages(1);
    let mut tree = make_tree(&mut storage);

    assert!(tree.get(&[42], &mut storage).is_none());
}

#[test]
fn test_empty_tree_remove_does_not_panic() {
    let mut storage = PageStore::with_blank_pages(1);
    let mut tree = make_tree(&mut storage);

    tree.remove(&[42], &mut storage).unwrap();
}

// // ── Value correctness ─────────────────────────────────────────────────────────

#[test]
fn test_value_correctness_after_removes() {
    // Most stress tests only check key presence. This test verifies that the
    // Location stored for each key is actually the one that was inserted.
    let mut storage = PageStore::with_blank_pages(1);
    let mut tree = make_tree(&mut storage);

    for i in 0u8..60 {
        tree.add(&[i], create_loc(i as usize), &mut storage)
            .expect("insert failed");
    }

    // Remove every third key.
    for i in (0u8..60).step_by(3) {
        tree.remove(&[i], &mut storage);
    }

    for i in 0u8..60 {
        let result = tree.get(&[i], &mut storage);
        if i % 3 == 0 {
            assert!(result.is_none(), "key {} should be removed", i);
        } else {
            let loc = result.unwrap_or_else(|| panic!("key {} should exist", i));
            assert!(
                is_loc_equal(loc, create_loc(i as usize)),
                "key {} returned wrong location",
                i
            );
        }
    }

    check_is_root_sorted(&mut tree, &mut storage);
}

// // ── Re-insert after remove ────────────────────────────────────────────────────

#[test]
fn btree_remove_test_reinsert_after_remove() {
    let mut storage = PageStore::with_blank_pages(1);
    let mut tree = make_tree(&mut storage);

    for i in 0u8..30 {
        tree.add(&[i], create_loc(i as usize), &mut storage)
            .expect("insert failed");
    }

    // Remove a spread of keys, then re-add them with different location values.
    let targets = [5u8, 10, 15, 20, 25];
    for &i in &targets {
        tree.remove(&[i], &mut storage);
        assert!(tree.get(&[i], &mut storage).is_none(), "key {} should be absent after remove", i);
    }

    for &i in &targets {
        tree.add(&[i], create_loc(i as usize + 100), &mut storage)
            .expect("re-insert failed");
    }

    for &i in &targets {
        let loc = tree
            .get(&[i], &mut storage)
            .unwrap_or_else(|| panic!("re-inserted key {} should exist", i));
        assert!(
            is_loc_equal(loc, create_loc(i as usize + 100)),
            "key {} should return the new location after re-insert",
            i
        );
    }

    // Keys that were never removed still carry their original values.
    for i in 0u8..30 {
        if !targets.contains(&i) {
            let loc = tree
                .get(&[i], &mut storage)
                .unwrap_or_else(|| panic!("untouched key {} should exist", i));
            assert!(
                is_loc_equal(loc, create_loc(i as usize)),
                "untouched key {} should still have its original location",
                i
            );
        }
    }

    check_is_root_sorted(&mut tree, &mut storage);
}

// // ── Separator key removal ─────────────────────────────────────────────────────

#[test]
fn btree_remove_test_remove_separator_key() {
    // With MAX_KEYS_PER_PAGE=9 and a leaf split at index MAX/2=4, inserting keys
    // 0..15 produces an internal root with separators [4, 8]:
    //   leaf [0,1,2,3]  |4|  leaf [4,5,6,7]  |8|  leaf [8,9,10,11,12,13,14]
    // Removing keys 4 and 8 — which are stored both in their leaf and as internal
    // separators — verifies that stale separators do not corrupt routing.
    let mut storage = PageStore::with_blank_pages(1);
    let mut tree = make_tree(&mut storage);

    for i in 0u8..15 {
        tree.add(&[i], create_loc(i as usize), &mut storage)
            .expect("insert failed");
    }

    tree.remove(&[4], &mut storage);
    tree.remove(&[8], &mut storage);

    assert!(tree.get(&[4], &mut storage).is_none(), "separator key 4 should be removed");
    assert!(tree.get(&[8], &mut storage).is_none(), "separator key 8 should be removed");

    for i in 0u8..15 {
        if i == 4 || i == 8 {
            continue;
        }
        let loc = tree
            .get(&[i], &mut storage)
            .unwrap_or_else(|| panic!("key {} should still be findable after separator removal", i));
        assert!(
            is_loc_equal(loc, create_loc(i as usize)),
            "key {} returned wrong location",
            i
        );
    }

    check_is_root_sorted(&mut tree, &mut storage);
}

// // ── Root height collapse ──────────────────────────────────────────────────────

#[test]
fn test_root_height_collapse() {
    // Build a 3-level tree then remove enough keys to merge internal nodes all
    // the way up so the root collapses to a shallower height.
    let mut storage = PageStore::with_blank_pages(1);
    let mut tree = make_tree(&mut storage);

    for i in 0u8..100 {
        tree.add(&[i], create_loc(i as usize), &mut storage)
            .expect("insert failed");
    }

    for i in 10u8..100 {
        tree.remove(&[i], &mut storage);
    }

    for i in 0u8..10 {
        let loc = tree
            .get(&[i], &mut storage)
            .unwrap_or_else(|| panic!("key {} should exist after collapse", i));
        assert!(
            is_loc_equal(loc, create_loc(i as usize)),
            "key {} has wrong location after root collapse",
            i
        );
    }

    check_is_root_sorted(&mut tree, &mut storage);
}

// // ── Random removal order ──────────────────────────────────────────────────────

#[test]
fn test_remove_random_order() {
    // Deterministic XorShift shuffle exercises borrow/merge paths that purely
    // sequential removal orders miss.
    let mut storage = PageStore::with_blank_pages(1);
    let mut tree = make_tree(&mut storage);

    let count: u8 = 100;
    for i in 0..count {
        tree.add(&[i], create_loc(i as usize), &mut storage)
            .expect("insert failed");
    }

    let mut keys: Vec<u8> = (0..count).collect();
    let mut state: u32 = 0xdeadbeef;
    for i in (1..keys.len()).rev() {
        state ^= state << 13;
        state ^= state >> 17;
        state ^= state << 5;
        let j = (state as usize) % (i + 1);
        keys.swap(i, j);
    }

    for &key in &keys {
        tree.remove(&[key], &mut storage);
    }

    for i in 0..count {
        assert!(
            tree.get(&[i], &mut storage).is_none(),
            "key {} should be removed",
            i
        );
    }
}

// // ── Multi-byte keys ───────────────────────────────────────────────────────────

#[test]
fn test_multi_byte_keys() {
    // All previous tests use 1-byte keys. This test uses 2-byte keys to verify
    // that lexicographic ordering is handled correctly end-to-end.
    // Lex order: [0,255] < [1,0] — first byte dominates, so this matches
    // big-endian u16 ordering and is a natural extension of single-byte tests.
    let mut storage = PageStore::with_blank_pages(1);
    let mut tree = make_tree(&mut storage);

    // 30 two-byte keys: high byte from 0..3, low byte from 0..10.
    for high in 0u8..3 {
        for low in 0u8..10 {
            let key = [high, low];
            let idx = (high as usize) * 10 + (low as usize);
            tree.add(key.as_slice(), create_loc(idx), &mut storage)
                .expect("insert failed");
        }
    }

    // All keys should be retrievable with correct locations.
    for high in 0u8..3 {
        for low in 0u8..10 {
            let key = [high, low];
            let idx = (high as usize) * 10 + (low as usize);
            let loc = tree
                .get(key.as_slice(), &mut storage)
                .unwrap_or_else(|| panic!("key {:?} should exist", key));
            assert!(
                is_loc_equal(loc, create_loc(idx)),
                "key {:?} returned wrong location",
                key
            );
        }
    }

    // Remove one key per high-byte group and verify ordering is not disturbed.
    tree.remove(&[0, 5], &mut storage);
    tree.remove(&[1, 0], &mut storage);
    tree.remove(&[2, 9], &mut storage);

    assert!(tree.get(&[0, 5], &mut storage).is_none());
    assert!(tree.get(&[1, 0], &mut storage).is_none());
    assert!(tree.get(&[2, 9], &mut storage).is_none());

    // Neighbours of the removed keys should be unaffected.
    assert!(tree.get(&[0, 4], &mut storage).is_some());
    assert!(tree.get(&[0, 6], &mut storage).is_some());
    assert!(tree.get(&[1, 1], &mut storage).is_some());
    assert!(tree.get(&[2, 8], &mut storage).is_some());

    check_is_root_sorted(&mut tree, &mut storage);
}

fn print_page(storage: &PageStore, page: &Page) {
    match page {
        Page::Internal(n) => {
            println!("{:?}", n.separators);
            println!();
            for i in 0..n.pages.len() {
                println!("child: {i}");
                print_page(storage, &n.pages[i].load_page(storage));
            }
        }
        Page::Leaf(n) => println!("{:?}", n.keys),
    }
}

#[test]
fn test_remove_all_keys_backwards() {
    let mut storage = PageStore::with_blank_pages(1);
    let mut tree = make_tree(&mut storage);

    for i in 0u8..100 {
        let loc = create_loc(i as usize);
        tree.add(&[i], loc, &mut storage).expect("insert failed");
    }

    // Remove all keys
    for i in 0u8..100 {
        println!("removing {}", i);
        print_page(&storage, &tree.root_page_location.load_page(&storage));
        let _ = tree.remove(&[100 - i - 1], &mut storage);
    }

    // Tree should be empty
    for i in 0u8..5 {
        assert!(
            tree.get(&[i], &mut storage).is_none(),
            "key {} should be removed",
            i
        );
    }
}

#[test]
fn test_multiple_removes_maintain_order() {
    let mut storage = PageStore::with_blank_pages(1);
    let mut tree = make_tree(&mut storage);

    // Insert many keys
    for i in 0u8..20 {
        let loc = create_loc(i as usize);
        tree.add(&[i], loc, &mut storage).expect("insert failed");
    }

    print_page(&storage, &tree.root_page_location.load_page(&storage));

    // Remove even numbers
    for i in (0u8..20).step_by(2) {
        tree.remove(&[i], &mut storage).unwrap();
        println!("removing {}", i);
        print_page(&storage, &tree.root_page_location.load_page(&storage));
    }

    // Verify odd keys still exist and are sorted
    check_is_root_sorted(&mut tree, &mut storage);

    // Check only odd keys remain
    for i in 0u8..20 {
        let result = tree.get(&[i], &mut storage);
        if i % 2 == 0 {
            assert!(result.is_none(), "even key {} should be removed", i);
        } else {
            assert!(result.is_some(), "odd key {} should remain", i);
        }
    }
}

#[test]
fn test_remove_after_split() {
    let mut storage = PageStore::with_blank_pages(1);
    let mut tree = make_tree(&mut storage);

    // Insert enough to trigger splits (11+ keys)
    for i in 0u8..15 {
        let loc = create_loc(i as usize);
        tree.add(&[i], loc, &mut storage).expect("insert failed");
    }

    print_page(&storage, &tree.root_page_location.load_page(&storage));

    // Remove some keys
    println!("removing 2");
    let _ = tree.remove(&[2], &mut storage);

    print_page(&storage, &tree.root_page_location.load_page(&storage));

    println!("removing 13");
    let _ = tree.remove(&[13], &mut storage);

    print_page(&storage, &tree.root_page_location.load_page(&storage));

    // Verify remaining keys
    assert!(tree.get(&[2], &mut storage).is_none());
    assert!(tree.get(&[13], &mut storage).is_none());

    for i in [0, 1, 3, 4, 5, 6, 7, 8, 9, 10, 11, 12, 14] {
        assert!(
            tree.get(&[i], &mut storage).is_some(),
            "key {} should exist",
            i
        );
    }
}

#[test]
fn test_remove_after_splits() {
    let mut storage = PageStore::with_blank_pages(1);
    let mut tree = make_tree(&mut storage);

    // Insert enough to trigger splits (11+ keys)
    for i in 0u8..100 {
        let loc = create_loc(i as usize);
        tree.add(&[i], loc, &mut storage).expect("insert failed");
    }

    // Remove some keys
    tree.remove(&[0], &mut storage).unwrap();
    tree.remove(&[2], &mut storage).unwrap();
    tree.remove(&[4], &mut storage).unwrap();
    tree.remove(&[6], &mut storage).unwrap();
    tree.remove(&[8], &mut storage).unwrap();
    tree.remove(&[10], &mut storage).unwrap();

    // Verify remaining keys
    assert!(tree.get(&[0], &mut storage).is_none());
    assert!(tree.get(&[2], &mut storage).is_none());
    assert!(tree.get(&[4], &mut storage).is_none());
    assert!(tree.get(&[6], &mut storage).is_none());
    assert!(tree.get(&[8], &mut storage).is_none());
    assert!(tree.get(&[10], &mut storage).is_none());

    for i in [1, 3, 5, 7, 9, 11, 12, 13, 14] {
        assert!(
            tree.get(&[i], &mut storage).is_some(),
            "key {} should exist",
            i
        );
    }

    let root_page = tree.root_page_location.load_page(&storage);
    print_page(&storage, &root_page);

    let mut missing = Vec::new();

    for i in 15u8..100 {
        if tree.get(&[i], &mut storage).is_none() {
            missing.push(i);
        }
    }

    assert!(
        missing.len() == 0,
        "keys should be present but weren't {:?}",
        missing
    );
}

#[test]
fn test_remove_half_of_keys() {
    let mut storage = PageStore::with_blank_pages(1);
    let mut tree = make_tree(&mut storage);

    let count = 30;
    for i in 0u8..count {
        let loc = create_loc(i as usize);
        tree.add(&[i], loc, &mut storage).expect("insert failed");
    }

    print_page(&storage, &tree.root_page_location.load_page(&storage));

    // Remove half
    for i in 0u8..count / 2 {
        let _ = tree.remove(&[i], &mut storage);
        println!("removed {}", i);
    }

    print_page(&storage, &tree.root_page_location.load_page(&storage));

    // Check remaining
    for i in 0u8..count {
        let result = tree.get(&[i], &mut storage);
        if i < count / 2 {
            assert!(result.is_none(), "key {} should be removed", i);
        } else {
            assert!(result.is_some(), "key {} should remain", i);
        }
    }

    check_is_root_sorted(&mut tree, &mut storage);
}

#[test]
fn test_remove_middle_then_end_then_add_then_remove_again() {
    let mut storage = PageStore::with_blank_pages(1);
    let mut tree = make_tree(&mut storage);

    // Phase 1: Add initial elements (10x: 100 instead of 10)
    for i in 0u16..100 {
        let loc = create_loc(i as usize);
        tree.add(&[i as u8], loc, &mut storage).expect("insert failed");
    }

    // Verify all initial keys exist
    for i in 0u16..100 {
        assert!(
            tree.get(&[i as u8], &mut storage).is_some(),
            "key {} should exist",
            i
        );
    }

    // Phase 2: Remove from middle (10x: keys 40-59 instead of 4-6)
    for i in 40u16..60 {
        let _ = tree.remove(&[i as u8], &mut storage);
    }

    // Middle keys should be gone
    for i in 40u16..60 {
        assert!(
            tree.get(&[i as u8], &mut storage).is_none(),
            "middle key {} should be removed",
            i
        );
    }

    print_page(&storage, &tree.root_page_location.load_page(&storage));
    // Other keys should still exist
    for i in 0u16..100 {
        if !(40..60).contains(&i) {
            assert!(
                tree.get(&[i as u8], &mut storage).is_some(),
                "key {} should still exist",
                i
            );
        }
    }

    // Phase 3: Remove from end (10x: keys 80-99 instead of 8-9)
    for i in 80u16..100 {
        let _ = tree.remove(&[i as u8], &mut storage);
    }

    // End keys should be gone
    for i in 80u16..100 {
        assert!(
            tree.get(&[i as u8], &mut storage).is_none(),
            "end key {} should be removed",
            i
        );
    }

    // Phase 4: Add new elements (10x: 200-249 instead of 100-104)
    for i in 200u16..250 {
        let loc = create_loc(i as usize);
        tree.add(&[i as u8], loc, &mut storage).expect("insert failed");
    }

    // New keys should exist
    for i in 200u16..250 {
        assert!(
            tree.get(&[i as u8], &mut storage).is_some(),
            "new key {} should exist",
            i
        );
    }

    // Phase 5: Remove again (10x: mixed)
    // from beginning: 0-9
    for i in 0u16..10 {
        let _ = tree.remove(&[i as u8], &mut storage);
    }
    // from newly added: 200-209
    for i in 200u16..210 {
        let _ = tree.remove(&[i as u8], &mut storage);
    }
    // from middle of original: 20-29
    for i in 20u16..30 {
        let _ = tree.remove(&[i as u8], &mut storage);
    }

    // These should be gone
    for i in 0u16..10 {
        assert!(
            tree.get(&[i as u8], &mut storage).is_none(),
            "key {} should be removed",
            i
        );
    }
    for i in 200u16..210 {
        assert!(
            tree.get(&[i as u8], &mut storage).is_none(),
            "key {} should be removed",
            i
        );
    }
    for i in 20u16..30 {
        assert!(
            tree.get(&[i as u8], &mut storage).is_none(),
            "key {} should be removed",
            i
        );
    }

    // These should remain
    for i in 10u16..20 {
        assert!(
            tree.get(&[i as u8], &mut storage).is_some(),
            "key {} should remain",
            i
        );
    }
    for i in 30u16..40 {
        assert!(
            tree.get(&[i as u8], &mut storage).is_some(),
            "key {} should remain",
            i
        );
    }
    for i in 60u16..80 {
        assert!(
            tree.get(&[i as u8], &mut storage).is_some(),
            "key {} should remain",
            i
        );
    }
    for i in 210u16..250 {
        assert!(
            tree.get(&[i as u8], &mut storage).is_some(),
            "key {} should remain",
            i
        );
    }

    check_is_root_sorted(&mut tree, &mut storage);
}

fn leaf_of(keys: &[u8]) -> Page {
    Page::Leaf(Leaf {
        keys: keys.iter().map(|k| vec![*k]).collect(),
        values: keys.iter().map(|k| create_loc(*k as usize)).collect(),
    })
}

fn leaf_keys(page: &Page) -> Vec<u8> {
    match page {
        Page::Leaf(leaf) => leaf.keys.iter().map(|k| k[0]).collect(),
        Page::Internal(_) => panic!("expected a leaf"),
    }
}

#[test]
fn short_first_child_borrows_from_its_right_sibling() {
    let mut storage = PageStore::new();
    let root = RefPageLocation { start_offset: 0 };
    let internal = Page::Internal(Internal {
        separators: vec![vec![4]],
        pages: vec![
            Location::Page(RefPageLocation { start_offset: 4096 }),
            Location::Page(RefPageLocation { start_offset: 8192 }),
        ],
    });
    root.write_page(&internal, &mut storage);
    RefPageLocation { start_offset: 4096 }.write_page(&leaf_of(&[0, 1, 2, 3]), &mut storage);
    RefPageLocation { start_offset: 8192 }.write_page(&leaf_of(&[4, 5, 6, 7, 8, 9]), &mut storage);
    let tree = PagingBtree { file_path: String::new(), root_page_location: root };
    tree.remove(&[1], &mut storage).unwrap();
    match root.load_page(&storage) {
        Page::Internal(i) => assert_eq!(i.separators, vec![vec![5u8]]),
        Page::Leaf(_) => panic!("root should stay internal"),
    }
    assert_eq!(leaf_keys(&RefPageLocation { start_offset: 4096 }.load_page(&storage)), vec![0, 2, 3, 4]);
    assert_eq!(leaf_keys(&RefPageLocation { start_offset: 8192 }.load_page(&storage)), vec![5, 6, 7, 8, 9]);
    for k in [0u8, 2, 3, 4, 5, 6, 7, 8, 9] {
        assert!(is_loc_equal(tree.get(&[k], &storage).unwrap(), create_loc(k as usize)));
    }
}

#[test]
fn write_past_the_end_of_an_index_file_fills_the_gap_with_blank_pages() {
    let mut storage = PageStore::new();
    RefPageLocation { start_offset: 2 * 4096 }.write_page(&leaf_of(&[1]), &mut storage);
    assert_eq!(storage.page_count(), 3);
    match (RefPageLocation { start_offset: 0 }).load_page(&storage) {
        Page::Internal(i) => assert!(i.separators.is_empty() && i.pages.is_empty()),
        Page::Leaf(_) => panic!("a blank page reads as an empty internal page"),
    }
    assert_eq!(leaf_keys(&RefPageLocation { start_offset: 2 * 4096 }.load_page(&storage)), vec![1]);
}

fn page_loc(o: u64) -> Location {
    Location::Page(RefPageLocation { start_offset: o })
}

#[test]
fn handle_underflow_middle_child_borrows_from_right() {
    let mut storage = PageStore::with_blank_pages(1);
    RefPageLocation { start_offset: 4096 }.write_page(&leaf_of(&[0, 1, 2, 3]), &mut storage);
    RefPageLocation { start_offset: 8192 }.write_page(&leaf_of(&[5, 6, 7]), &mut storage);
    RefPageLocation { start_offset: 12288 }.write_page(&leaf_of(&[8, 9, 10, 11, 12, 13, 14]), &mut storage);
    let mut node = Internal { separators: vec![vec![4], vec![8]], pages: vec![page_loc(4096), page_loc(8192), page_loc(12288)] };
    node.handle_underflow(&[4], &mut storage);
    assert_eq!(node.separators, vec![vec![4u8], vec![9u8]]);
    assert_eq!(node.pages.len(), node.separators.len() + 1);
    assert_eq!(leaf_keys(&RefPageLocation { start_offset: 8192 }.load_page(&storage)), vec![5, 6, 7, 8]);
    assert_eq!(leaf_keys(&RefPageLocation { start_offset: 12288 }.load_page(&storage)), vec![9, 10, 11, 12, 13, 14]);
    assert_eq!(leaf_keys(&RefPageLocation { start_offset: 4096 }.load_page(&storage)), vec![0, 1, 2, 3]);
}

#[test]
fn handle_underflow_first_child_borrows_from_right() {
    let mut storage = PageStore::with_blank_pages(1);
    RefPageLocation { start_offset: 4096 }.write_page(&leaf_of(&[0, 2, 3]), &mut storage);
    RefPageLocation { start_offset: 8192 }.write_page(&leaf_of(&[4, 5, 6, 7, 8, 9]), &mut storage);
    let mut node = Internal { separators: vec![vec![4]], pages: vec![page_loc(4096), page_loc(8192)] };
    node.handle_underflow(&[1], &mut storage);
    assert_eq!(node.separators, vec![vec![5u8]]);
    assert!(is_loc_equal(node.pages[0], page_loc(4096)) && is_loc_equal(node.pages[1], page_loc(8192)));
    assert_eq!(leaf_keys(&RefPageLocation { start_offset: 4096 }.load_page(&storage)), vec![0, 2, 3, 4]);
    assert_eq!(leaf_keys(&RefPageLocation { start_offset: 8192 }.load_page(&storage)), vec![5, 6, 7, 8, 9]);
}

#[test]
fn handle_underflow_last_child_is_taken_in_by_its_left_sibling() {
    let mut storage = PageStore::with_blank_pages(1);
    RefPageLocation { start_offset: 4096 }.write_page(&leaf_of(&[0, 1, 2, 3]), &mut storage);
    RefPageLocation { start_offset: 8192 }.write_page(&leaf_of(&[5, 6, 7]), &mut storage);
    let mut node = Internal { separators: vec![vec![5]], pages: vec![page_loc(4096), page_loc(8192)] };
    node.handle_underflow(&[6], &mut storage);
    assert!(node.separators.is_empty());
    assert_eq!(node.pages.len(), 1);
    assert_eq!(leaf_keys(&RefPageLocation { start_offset: 4096 }.load_page(&storage)), vec![0, 1, 2, 3, 5, 6, 7]);
    assert!(leaf_keys(&RefPageLocation { start_offset: 8192 }.load_page(&storage)).is_empty());
}
