use homelab_db::storage::btree::internal_page::Internal;
use homelab_db::storage::btree::leaf_page::Leaf;
use homelab_db::storage::btree::location::{Location, PageStore, RefPageLocation, RefValueLocation};
use homelab_db::storage::btree::page::Page;
use homelab_db::storage::btree::tree::PagingBtree;

pub const PAGE_SIZE: usize = 4096;
pub const MAX_KEYS_PER_PAGE: usize = 10;

fn create_loc(value: usize) -> Location {
    Location::Value(RefValueLocation { size: value, start_offset: value as u64 })
}

fn is_loc_equal(l_loc: Location, r_loc: Location) -> bool {
    match (l_loc, r_loc) {
        (Location::Value(l_v), Location::Value(r_v)) => {
            l_v.size == r_v.size && l_v.start_offset == r_v.start_offset
        }
        (Location::Page(l_p), Location::Page(r_p)) => l_p.start_offset == r_p.start_offset,
        _ => false,
    }
}

fn empty_root_store() -> PageStore {
    let mut storage = PageStore::with_blank_pages(1);
    let root = Page::Leaf(Leaf { keys: Vec::new(), values: Vec::new() });
    RefPageLocation { start_offset: 0 }.write_page(&root, &mut storage);
    storage
}

fn make_tree() -> PagingBtree {
    PagingBtree::with_storage(empty_root_store())
}

fn make_tree_from_stroage(storage: PageStore) -> PagingBtree {
    PagingBtree::with_storage(storage)
}

fn collect_keys(storage: &PageStore, page: &Page, out: &mut Vec<Vec<u8>>) {
    match page {
        Page::Leaf(leaf) => {
            for k in &leaf.keys {
                out.push(k.clone());
            }
        }
        Page::Internal(Internal { pages, .. }) => {
            for loc in pages {
                let child = loc.load_page(storage);
                collect_keys(storage, &child, out);
            }
        }
    }
}

fn check_is_root_sorted(tree: &mut PagingBtree) {
    let root = tree.root_page_location.load_page(&tree.storage);
    if let Page::Internal(internal) = &root {
        let mut seps = internal.separators.clone();
        seps.sort();
        assert_eq!(seps, internal.separators, "root separators are not sorted");
    }
    let mut keys = Vec::new();
    collect_keys(&tree.storage, &root, &mut keys);
    let mut sorted = keys.clone();
    sorted.sort();
    assert_eq!(keys, sorted, "tree keys are not in sorted order");
}

#[test]
fn btree_push_test_write_read_roundtrip() {
    let mut storage = &mut PageStore::with_blank_pages(1);

    let page = Page::Leaf(Leaf {
        keys: vec![vec![1u8]],
        values: vec![create_loc(1usize)],
    });

    let loc = Location::Page(RefPageLocation { start_offset: 0 });

    loc.write_page(&page, &mut storage);

    let loaded = loc.load_page(&mut storage);
    assert_eq!(
        loaded.size(),
        1,
        "roundtrip failed, got {} nodes",
        loaded.size()
    );
}

#[test]
fn btree_push_test_no_split_before_threshold() {
    let mut tree = make_tree();

    for i in 0u8..6 {
        let loc = create_loc(i as usize);
        tree.insert(&[i], loc).expect("insert failed");
    }

    let storage = &mut tree.storage;
    let len = storage.len();

    assert!(
        len == PAGE_SIZE as u64,
        "expected no split at 6 inserts but file grew, len: {}",
        len
    );

    let root = tree.root_page_location.load_page(storage);
    assert_eq!(
        root.size(),
        6,
        "root should have 6 keys, got {}",
        root.size()
    );
}

#[test]
fn btree_push_test_split_on_eleventh_insert() {
    let mut tree = make_tree();

    for i in 0u8..11 {
        let loc = create_loc(i as usize);
        tree.insert(&[i], loc).expect("insert failed");
    }

    let storage = &mut tree.storage;
    let len = storage.len();
    assert!(
        len > PAGE_SIZE as u64,
        "expected split but file is still one page len: {}",
        len
    );

    let root = tree.root_page_location.load_page(storage);
    assert_eq!(
        root.size(),
        1,
        "root should have exactly one promoted key after first split"
    );
}

#[test]
fn btree_push_test_all_keys_findable_after_split() {
    let mut tree = make_tree();

    for i in 0u8..11 {
        let loc = create_loc(i as usize);
        tree.insert(&[i], loc).expect("insert failed");
    }

    for i in 0u8..11 {
        let result = tree.get(&[i]);
        assert!(result.is_some(), "key {} not found after split", i);
    }
}

#[test]
fn btree_push_test_exactly_max_keys_no_split() {
    let mut tree = make_tree();

    for i in 0u8..MAX_KEYS_PER_PAGE as u8 {
        let loc = create_loc(i as usize);
        tree.insert(&[i], loc).expect("insert failed");
    }

    let storage = &mut tree.storage;
    let len = storage.len();

    assert!(
        len == (PAGE_SIZE * 3) as u64,
        "expected no split at exactly MAX_KEYS_PER_PAGE inserts, len: {}",
        len
    );

    let root = tree.root_page_location.load_page(storage);
    assert_eq!(
        root.size(),
        1,
        "root should have exactly {} keys, got {}",
        1,
        root.size()
    );
}

#[test]
fn btree_push_test_max_keys_plus_one_triggers_split() {
    let mut tree = make_tree();

    for i in 0u8..=(MAX_KEYS_PER_PAGE as u8) {
        let loc = create_loc(i as usize);
        tree.insert(&[i], loc).expect("insert failed");
    }

    let storage = &mut tree.storage;
    let len = storage.len();
    assert!(
        len > PAGE_SIZE as u64,
        "expected split at MAX_KEYS_PER_PAGE + 1 inserts, len: {}",
        len
    );
}

#[test]
fn btree_push_test_single_insert_and_lookup() {
    let mut tree = make_tree();

    let loc99 = create_loc(99);
    tree.insert(&[42], loc99).expect("insert failed");

    let result = tree.get(&[42]);
    assert!(result.is_some(), "single inserted key not found");
    assert!(
        is_loc_equal(result.unwrap(), loc99),
        "value mismatch for key 42"
    );
}

// // ── Correctness ─────────────────────────────────────────────────────────────

#[test]
fn btree_push_test_reverse_order_insert() {
    let mut tree = make_tree();

    for i in (0u8..11).rev() {
        let loc = create_loc(i as usize);
        tree.insert(&[i], loc).expect("insert failed");
    }

    for i in 0u8..11 {
        let result = tree.get(&[i]);
        assert!(
            result.is_some(),
            "key {} not found after reverse order insert",
            i
        );
    }
}

#[test]
fn btree_push_test_duplicate_key_insert() {
    let mut tree = make_tree();

    let loc10 = create_loc(10);
    tree.insert(&[1], loc10).expect("insert failed");

    let loc20 = create_loc(20);
    tree.insert(&[1], loc20).expect("insert failed");

    let result = tree.get(&[1]);
    assert!(result.is_some(), "key not found after duplicate insert");
}

#[test]
fn btree_push_test_multiple_splits_all_keys_findable() {
    let mut tree = make_tree();

    let count = (MAX_KEYS_PER_PAGE * 10) as u8;
    for i in 0u8..count {
        let loc = create_loc(i as usize);
        tree.insert(&[i], loc).expect("insert failed");
    }

    for i in 0u8..count {
        let loc = create_loc(i as usize);
        let result = tree.get(&[i]);
        assert!(
            is_loc_equal(loc, result.unwrap()),
            "key {} not found after multiple splits",
            i
        );
    }
}

#[test]
fn btree_push_test_tree_is_sorted_after_multiple_splits() {
    let mut tree = make_tree();

    let keys: Vec<u8> = vec![5, 3, 8, 1, 9, 2, 7, 4, 6, 0, 11, 10];
    for &k in &keys {
        let loc = create_loc(k as usize);
        tree.insert(&[k], loc).expect("insert failed");
    }

    check_is_root_sorted(&mut tree);
}

// // ── Split structure ──────────────────────────────────────────────────────────

#[test]
fn btree_push_test_split_children_key_counts() {
    let mut tree = make_tree();

    for i in 0u8..(MAX_KEYS_PER_PAGE as u8) {
        let loc = create_loc(i as usize);
        tree.insert(&[i], loc).expect("insert failed");
    }

    let storage = &mut tree.storage;
    let root = tree.root_page_location.load_page(storage);
    assert_eq!(
        root.size(),
        1,
        "root should have 1 promoted key after first split"
    );

    match root {
        Page::Leaf(_) => panic!(),
        Page::Internal(i) => {
            let children = i.pages;
            assert_eq!(children.len(), 2, "root should have exactly 2 children");

            let left = children[0].load_page(storage);
            let right = children[1].load_page(storage);

            let half = MAX_KEYS_PER_PAGE / 2;
            assert_eq!(
                left.size(),
                half - 1,
                "left child should have {} keys, got {}",
                half,
                left.size()
            );
            assert_eq!(
                right.size(),
                half + 1,
                "right child should have {} keys, got {}",
                half,
                right.size()
            );
        }
    }
}

#[test]
fn btree_push_test_split_no_key_loss_or_duplication() {
    let mut tree = make_tree();

    let count = MAX_KEYS_PER_PAGE + 1;
    for i in 0u8..count as u8 {
        let loc = create_loc(i as usize);
        tree.insert(&[i], loc).expect("insert failed");
    }

    check_is_root_sorted(&mut tree);
}

#[test]
fn btree_push_test_page_alignment_maintained_after_splits() {
    let mut tree = make_tree();

    for i in 0u8..(MAX_KEYS_PER_PAGE * 3) as u8 {
        let loc = create_loc(i as usize);
        tree.insert(&[i], loc).expect("insert failed");
    }

    let storage = &mut tree.storage;
    let len = storage.len();
    assert_eq!(
        len % PAGE_SIZE as u64,
        0,
        "file is not page-aligned after splits, len: {}",
        len
    );
}

// // ── Storage integrity ───────────────────────────────────────────────────────

#[test]
fn btree_push_test_root_survives_reconstruction_after_split() {
    let mut tree = make_tree();

    for i in 0u8..=(MAX_KEYS_PER_PAGE as u8) {
        let loc = create_loc(i as usize);
        tree.insert(&[i], loc).expect("insert failed");
    }

    let mut storage = tree.storage.clone();
    let mut tree2 = make_tree_from_stroage(tree.storage);

    for i in 0u8..=(MAX_KEYS_PER_PAGE as u8) {
        let result = tree2.get(&[i]);
        assert!(result.is_some(), "key {} not found after reconstruction", i);
    }
}
