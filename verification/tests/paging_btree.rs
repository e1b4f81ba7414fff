use homelab_db::storage::paging_btree::{Node, Page, PageLocation, PageStore, PaginBtree, MAX_KEYS_PER_PAGE};

const PAGE_SIZE: usize = 4096;

fn make_tree() -> PaginBtree {
    PaginBtree { file_path: String::new(), root_page_location: PageLocation { start_offset: 0 } }
}

#[test]
fn paging_btree_test_write_read_roundtrip() {
    let mut storage = PageStore::with_blank_pages(1);

    let page = Page {
        nodes: vec![Node {
            key: vec![1],
            value: vec![1],
        }],
        pages: None,
    };

    let loc = PageLocation { start_offset: 0 };
    loc.write_page(&page, &mut storage);

    let loaded = loc.load_page(&mut storage);
    assert_eq!(
        loaded.nodes.len(),
        1,
        "roundtrip failed, got {} nodes",
        loaded.nodes.len()
    );
}

#[test]
fn paging_btree_test_no_split_before_threshold() {
    let mut storage = PageStore::with_blank_pages(1);
    let mut tree = make_tree();

    for i in 0u8..6 {
        tree.add_node(&mut storage, vec![i], vec![i])
            .expect("insert failed");
    }

    let len = storage.len();
    assert!(
        len == PAGE_SIZE as u64,
        "expected no split at 6 inserts but file grew, len: {}",
        len
    );

    let root = tree.root_page_location.load_page(&mut storage);
    assert_eq!(
        root.nodes.len(),
        6,
        "root should have 6 keys, got {}",
        root.nodes.len()
    );
    assert!(
        root.pages.is_none(),
        "root should still be a leaf at 6 inserts"
    );
}

#[test]
fn paging_btree_test_split_on_eleventh_insert() {
    let mut storage = PageStore::with_blank_pages(1); // pre-allocate root page
    let mut tree = make_tree();

    for i in 0u8..11 {
        tree.add_node(&mut storage, vec![i], vec![i])
            .expect("insert failed");
    }

    // after 11 inserts a split must have occurred
    // file should have more than one page
    let len = storage.len();
    assert!(
        len > PAGE_SIZE as u64,
        "expected split but file is still one page len: {}",
        len
    );

    // root should be findable and contain the promoted key
    let root = tree.root_page_location.load_page(&mut storage);
    assert_eq!(
        root.nodes.len(),
        1,
        "root should have exactly one promoted key after first split"
    );
    assert!(
        root.pages.is_some(),
        "root should have child pointers after split"
    );
    assert_eq!(
        root.pages.as_ref().unwrap().len(),
        2,
        "root should have exactly two children"
    );
}

#[test]
fn paging_btree_test_all_keys_findable_after_split() {
    let mut storage = PageStore::with_blank_pages(1);
    let mut tree = make_tree();

    for i in 0u8..11 {
        tree.add_node(&mut storage, vec![i], vec![i])
            .expect("insert failed");
    }

    // every inserted key must be findable by walking the tree
    for i in 0u8..11 {
        let root = tree.root_page_location.load_page(&mut storage);
        let found = find_key(&mut storage, &root, &vec![i]);
        assert!(found, "key {} not found after split", i);
    }
}

#[test]
fn paging_btree_test_exactly_max_keys_no_split() {
    let mut storage = PageStore::with_blank_pages(1);
    let mut tree = make_tree();

    for i in 0u8..MAX_KEYS_PER_PAGE as u8 {
        tree.add_node(&mut storage, vec![i], vec![i])
            .expect("insert failed");
    }

    let len = storage.len();
    assert!(
        len == PAGE_SIZE as u64,
        "expected no split at exactly MAX_KEYS_PER_PAGE inserts, len: {}",
        len
    );

    let root = tree.root_page_location.load_page(&mut storage);
    assert_eq!(
        root.nodes.len(),
        MAX_KEYS_PER_PAGE,
        "root should have exactly {} keys, got {}",
        MAX_KEYS_PER_PAGE,
        root.nodes.len()
    );
    assert!(
        root.pages.is_none(),
        "should still be a leaf at MAX_KEYS_PER_PAGE"
    );
}

#[test]
fn paging_btree_test_max_keys_plus_one_triggers_split() {
    let mut storage = PageStore::with_blank_pages(1);
    let mut tree = make_tree();

    for i in 0u8..=(MAX_KEYS_PER_PAGE as u8) {
        tree.add_node(&mut storage, vec![i], vec![i])
            .expect("insert failed");
    }

    let len = storage.len();
    assert!(
        len > PAGE_SIZE as u64,
        "expected split at MAX_KEYS_PER_PAGE + 1 inserts, len: {}",
        len
    );
}

#[test]
fn paging_btree_test_single_insert_and_lookup() {
    let mut storage = PageStore::with_blank_pages(1);
    let mut tree = make_tree();

    tree.add_node(&mut storage, vec![42], vec![99])
        .expect("insert failed");

    let root = tree.root_page_location.load_page(&mut storage);
    let found = find_key(&mut storage, &root, &vec![42]);
    assert!(found, "single inserted key not found");
}

// ── Correctness ─────────────────────────────────────────────────────────────

#[test]
fn paging_btree_test_reverse_order_insert() {
    let mut storage = PageStore::with_blank_pages(1);
    let mut tree = make_tree();

    // insert in descending order
    for i in (0u8..11).rev() {
        tree.add_node(&mut storage, vec![i], vec![i])
            .expect("insert failed");
    }

    for i in 0u8..11 {
        let root = tree.root_page_location.load_page(&mut storage);
        let found = find_key(&mut storage, &root, &vec![i]);
        assert!(found, "key {} not found after reverse order insert", i);
    }
}

#[test]
fn paging_btree_test_duplicate_key_insert() {
    let mut storage = PageStore::with_blank_pages(1);
    let mut tree = make_tree();

    tree.add_node(&mut storage, vec![1], vec![10])
        .expect("insert failed");
    tree.add_node(&mut storage, vec![1], vec![20])
        .expect("insert failed");

    // key should still be findable regardless of upsert vs duplicate semantics
    let root = tree.root_page_location.load_page(&mut storage);
    let found = find_key(&mut storage, &root, &vec![1]);
    assert!(found, "key not found after duplicate insert");
}

#[test]
fn paging_btree_test_multiple_splits_all_keys_findable() {
    let mut storage = PageStore::with_blank_pages(1);
    let mut tree = make_tree();

    // 5x MAX_KEYS_PER_PAGE to force multiple splits across multiple levels
    let count = (MAX_KEYS_PER_PAGE * 5) as u8;
    for i in 0u8..count {
        tree.add_node(&mut storage, vec![i], vec![i])
            .expect("insert failed");
    }

    for i in 0u8..count {
        let root = tree.root_page_location.load_page(&mut storage);
        let found = find_key(&mut storage, &root, &vec![i]);
        assert!(found, "key {} not found after multiple splits", i);
    }
}

#[test]
fn paging_btree_test_tree_is_sorted_after_multiple_splits() {
    let mut storage = PageStore::with_blank_pages(1);
    let mut tree = make_tree();

    // insert in random-ish order
    let keys: Vec<u8> = vec![5, 3, 8, 1, 9, 2, 7, 4, 6, 0, 11, 10];
    for &k in &keys {
        tree.add_node(&mut storage, vec![k], vec![k])
            .expect("insert failed");
    }

    // collect all keys by walking the tree in order
    let root = tree.root_page_location.load_page(&mut storage);
    let mut collected = Vec::new();
    collect_keys_in_order(&mut storage, &root, &mut collected);

    let mut sorted = collected.clone();
    sorted.sort();
    assert_eq!(collected, sorted, "tree keys are not in sorted order");
}

// ── Split structure ──────────────────────────────────────────────────────────

#[test]
fn paging_btree_test_split_children_key_counts() {
    let mut storage = PageStore::with_blank_pages(1);
    let mut tree = make_tree();

    // exactly MAX_KEYS_PER_PAGE + 1 to get a clean first split
    for i in 0u8..=(MAX_KEYS_PER_PAGE as u8) {
        tree.add_node(&mut storage, vec![i], vec![i])
            .expect("insert failed");
    }

    let root = tree.root_page_location.load_page(&mut storage);
    assert_eq!(
        root.nodes.len(),
        1,
        "root should have 1 promoted key after first split"
    );

    let children = root.pages.as_ref().expect("root should have children");
    assert_eq!(children.len(), 2, "root should have exactly 2 children");

    let left = children[0].load_page(&mut storage);
    let right = children[1].load_page(&mut storage);

    let half = MAX_KEYS_PER_PAGE / 2;
    assert_eq!(
        left.nodes.len(),
        half,
        "left child should have {} keys, got {}",
        half,
        left.nodes.len()
    );
    assert_eq!(
        right.nodes.len(),
        half,
        "right child should have {} keys, got {}",
        half,
        right.nodes.len()
    );
}

#[test]
fn paging_btree_test_split_no_key_loss_or_duplication() {
    let mut storage = PageStore::with_blank_pages(1);
    let mut tree = make_tree();

    let count = MAX_KEYS_PER_PAGE + 1;
    for i in 0u8..count as u8 {
        tree.add_node(&mut storage, vec![i], vec![i])
            .expect("insert failed");
    }

    // collect all keys across the entire tree
    let root = tree.root_page_location.load_page(&mut storage);
    let mut all_keys = Vec::new();
    collect_keys_in_order(&mut storage, &root, &mut all_keys);

    // no duplicates
    let mut deduped = all_keys.clone();
    deduped.dedup();
    assert_eq!(all_keys, deduped, "found duplicate keys after split");

    // no missing keys — every inserted key must appear exactly once
    assert_eq!(
        all_keys.len(),
        count,
        "expected {} keys in tree, found {}",
        count,
        all_keys.len()
    );
}

#[test]
fn paging_btree_test_page_alignment_maintained_after_splits() {
    let mut storage = PageStore::with_blank_pages(1);
    let mut tree = make_tree();

    for i in 0u8..(MAX_KEYS_PER_PAGE * 3) as u8 {
        tree.add_node(&mut storage, vec![i], vec![i])
            .expect("insert failed");
    }

    let len = storage.len();
    assert_eq!(
        len % PAGE_SIZE as u64,
        0,
        "file is not page-aligned after splits, len: {}",
        len
    );
}

// ── Storage integrity ────────────────────────────────────────────────────────

fn collect_keys_in_order(storage: &mut PageStore, page: &Page, out: &mut Vec<Vec<u8>>) {
    match &page.pages {
        None => {
            for node in &page.nodes {
                out.push(node.key.clone());
            }
        }
        Some(children) => {
            for (i, child_loc) in children.iter().enumerate() {
                let child = child_loc.load_page(storage);
                collect_keys_in_order(storage, &child, out);
                if i < page.nodes.len() {
                    out.push(page.nodes[i].key.clone());
                }
            }
        }
    }
}

fn find_key(storage: &mut PageStore, page: &Page, key: &Vec<u8>) -> bool {
    if page.contains_match(key).is_some() {
        return true;
    }

    if page.pages.is_none() {
        return page.contains_match(key).is_some();
    }

    let index = page.find_position(key);
    let child_location = &page.pages.as_ref().unwrap()[index];
    let child = child_location.load_page(storage);
    find_key(storage, &child, key)
}

#[test]
fn paging_btree_file_holds_each_added_node_once() {
    let mut storage = PageStore::with_blank_pages(1);
    let mut tree = make_tree();

    for i in 0u8..120 {
        tree.add_node(&mut storage, vec![i], vec![i, 7])
            .expect("insert failed");
    }

    let mut counts = vec![0usize; 120];
    for p in 0..storage.page_count() {
        let page = storage.read(p);
        for node in &page.nodes {
            assert_eq!(node.key.len(), 1);
            assert_eq!(node.value, vec![node.key[0], 7]);
            counts[node.key[0] as usize] += 1;
        }
    }
    assert!(counts.iter().all(|c| *c == 1), "counts: {:?}", counts);
    assert!(storage.page_count() > 12, "expected pages split below the root");
}

#[test]
#[should_panic]
fn paging_btree_test_root_survives_reconstruction_after_split() {
    let mut storage = PageStore::with_blank_pages(1);
    let mut tree = make_tree();

    for i in 0u8..=(MAX_KEYS_PER_PAGE as u8) {
        tree.add_node(&mut storage, vec![i], vec![i])
            .expect("insert failed");
    }

    // simulate reopening — new tree always starts root at offset 0
    // but after a split, root has moved away from offset 0
    let tree2 = make_tree();

    for i in 0u8..=(MAX_KEYS_PER_PAGE as u8) {
        let root = tree2.root_page_location.load_page(&mut storage);
        let found = find_key(&mut storage, &root, &vec![i]);
        assert!(found, "key {} not found after reconstruction", i);
    }
}

#[test]
fn paging_btree_split_gives_each_half_one_more_child_than_keys() {
    let mut storage = PageStore::with_blank_pages(1);
    let children: Vec<PageLocation> = (0u64..12).map(|j| PageLocation { start_offset: 4096 * (j + 10) }).collect();
    let mut page = Page {
        nodes: (0u8..=10).map(|j| Node { key: vec![j], value: vec![j] }).collect(),
        pages: Some(children.clone()),
    };
    let loc = PageLocation { start_offset: 0 };
    let o = page.split(&loc, &mut storage);
    assert_eq!(o.node.key, vec![5]);
    assert_eq!(o.l_split.unwrap().start_offset, 0);
    assert_eq!(o.r_split.unwrap().start_offset, 4096);
    let left = PageLocation { start_offset: 0 }.load_page(&storage);
    let right = PageLocation { start_offset: 4096 }.load_page(&storage);
    let keys = |p: &Page| p.nodes.iter().map(|n| n.key[0]).collect::<Vec<u8>>();
    let offsets = |p: &Page| p.pages.as_ref().unwrap().iter().map(|l| l.start_offset).collect::<Vec<u64>>();
    assert_eq!(keys(&left), vec![0, 1, 2, 3, 4]);
    assert_eq!(keys(&right), vec![6, 7, 8, 9, 10]);
    assert_eq!(offsets(&left), children[..6].iter().map(|l| l.start_offset).collect::<Vec<u64>>());
    assert_eq!(offsets(&right), children[6..].iter().map(|l| l.start_offset).collect::<Vec<u64>>());
}

#[test]
fn paging_btree_push_of_key_equal_to_first_keeps_page_sorted() {
    let mut storage = PageStore::with_blank_pages(1);
    let mut page = Page {
        nodes: (1u8..=3).map(|j| Node { key: vec![j], value: vec![j] }).collect(),
        pages: None,
    };
    let loc = PageLocation { start_offset: 0 };
    let r = page.push(vec![1], vec![9], None, &loc, &mut storage);
    assert!(matches!(r, homelab_db::storage::paging_btree::PushResult::Inserted));
    let stored = loc.load_page(&storage);
    let keys: Vec<Vec<u8>> = stored.nodes.iter().map(|n| n.key.clone()).collect();
    assert_eq!(keys, vec![vec![1], vec![1], vec![2], vec![3]]);
    assert_eq!(stored.nodes[0].value, vec![9]);
}

#[test]
fn paging_btree_root_split_moves_root_to_new_last_page() {
    let mut storage = PageStore::with_blank_pages(1);
    let mut tree = make_tree();
    for i in 0u8..=(MAX_KEYS_PER_PAGE as u8) {
        tree.add_node(&mut storage, vec![i], vec![i]).unwrap();
    }
    assert_eq!(storage.page_count(), 3);
    assert_eq!(tree.root_page_location.start_offset, 2 * 4096);
    let root = tree.root_page_location.load_page(&storage);
    assert_eq!(root.nodes.len(), 1);
    assert_eq!(root.nodes[0].key, vec![5]);
    let left = PageLocation { start_offset: 0 }.load_page(&storage);
    let right = PageLocation { start_offset: 4096 }.load_page(&storage);
    assert_eq!(left.nodes.iter().map(|n| n.key[0]).collect::<Vec<u8>>(), vec![0, 1, 2, 3, 4]);
    assert_eq!(right.nodes.iter().map(|n| n.key[0]).collect::<Vec<u8>>(), vec![6, 7, 8, 9, 10]);
    let ps = root.pages.unwrap();
    assert_eq!(ps.iter().map(|l| l.start_offset).collect::<Vec<u64>>(), vec![0, 4096]);
}

#[test]
fn paging_btree_can_add_to_a_fresh_file_and_not_past_a_missing_child() {
    let storage = PageStore::with_blank_pages(1);
    let tree = make_tree();
    assert!(tree.can_add(&storage, &vec![1]));
    let mut storage = PageStore::with_blank_pages(1);
    let root = Page { nodes: vec![Node { key: vec![5], value: vec![5] }], pages: Some(vec![PageLocation { start_offset: 4096 }, PageLocation { start_offset: 8192 }]) };
    PageLocation { start_offset: 0 }.write_page(&root, &mut storage);
    assert!(!tree.can_add(&storage, &vec![1]));
}

#[test]
fn paging_btree_write_past_the_end_fills_the_gap_with_blank_pages() {
    let mut storage = PageStore::with_blank_pages(1);
    let page = Page { nodes: vec![Node { key: vec![7], value: vec![7] }], pages: None };
    PageLocation { start_offset: 3 * 4096 }.write_page(&page, &mut storage);
    assert_eq!(storage.page_count(), 4);
    assert!(PageLocation { start_offset: 4096 }.load_page(&storage).nodes.is_empty());
    assert!(PageLocation { start_offset: 2 * 4096 }.load_page(&storage).pages.is_none());
    assert_eq!(PageLocation { start_offset: 3 * 4096 }.load_page(&storage).nodes[0].key, vec![7]);
}

#[test]
fn paging_btree_internal_root_split_keeps_both_halves_under_the_new_root() {
    let mut storage = PageStore::with_blank_pages(1);
    let mut tree = make_tree();
    let mut moves = 0;
    let mut previous_root = tree.root_page_location.start_offset;
    let mut i: u8 = 0;
    while moves < 2 {
        tree.add_node(&mut storage, vec![i], vec![i]).unwrap();
        if tree.root_page_location.start_offset != previous_root {
            moves += 1;
            if moves == 2 {
                let root = tree.root_page_location.load_page(&storage);
                let count = storage.page_count() as u64;
                assert_eq!(tree.root_page_location.start_offset, (count - 1) * 4096);
                let ps = root.pages.clone().unwrap();
                assert_eq!(ps[0].start_offset, previous_root);
                assert_eq!(ps[1].start_offset, (count - 2) * 4096);
                let left = ps[0].load_page(&storage);
                let right = ps[1].load_page(&storage);
                assert_eq!(left.nodes.len(), 5);
                assert_eq!(right.nodes.len(), 5);
                assert_eq!(left.pages.unwrap().len(), 6);
                assert_eq!(right.pages.unwrap().len(), 6);
                assert!(left.nodes[4].key < root.nodes[0].key && root.nodes[0].key < right.nodes[0].key);
            }
            previous_root = tree.root_page_location.start_offset;
        }
        i += 1;
    }
    for k in 0..i {
        let root = tree.root_page_location.load_page(&storage);
        assert!(find_key(&mut storage, &root, &vec![k]), "key {} not found", k);
    }
}
