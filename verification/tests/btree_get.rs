use homelab_db::storage::btree::btree::PagingBtree;
use homelab_db::storage::btree::internal_page::Internal;
use homelab_db::storage::btree::leaf_page::Leaf;
use homelab_db::storage::btree::location::{Location, PageStore, RefPageLocation, RefValueLocation};
use homelab_db::storage::btree::page::Page;

pub const PAGE_SIZE: usize = 4096;
pub const MAX_KEYS_PER_PAGE: usize = 10;

fn create_loc(value: usize) -> Location {
    Location::Value(RefValueLocation { size: value, start_offset: value as u64 })
}

fn is_loc_equal(l_loc: Location, r_loc: Location) -> bool {
    match (l_loc, r_loc) {
        (Location::Value(l_v), Location::Value(r_v)) => {
            l_v.size == r_v.size && l_v.start_offset == r_v.start_offset
        }
        (Location::Page(l_p), Location::Page(r_p)) => l_p.start_offset == r_p.start_offset,
        _ => false,
    }
}

fn make_tree(storage: &mut PageStore) -> PagingBtree {
    let location = RefPageLocation { start_offset: 0 };
    let root = Page::Leaf(Leaf { keys: Vec::new(), values: Vec::new() });
    location.write_page(&root, storage);
    PagingBtree { file_path: String::new(), root_page_location: location }
}

#[allow(dead_code)]
fn collect_keys(storage: &PageStore, page: &Page, out: &mut Vec<Vec<u8>>) {
    match page {
        Page::Leaf(leaf) => {
            for k in &leaf.keys {
                out.push(k.clone());
            }
        }
        Page::Internal(Internal { pages, .. }) => {
            for loc in pages {
                let child = loc.load_page(storage);
                collect_keys(storage, &child, out);
            }
        }
    }
}

#[allow(dead_code)]
fn check_is_root_sorted(tree: &mut PagingBtree, storage: &mut PageStore) {
    let root = tree.root_page_location.load_page(storage);
    if let Page::Internal(internal) = &root {
        let mut seps = internal.separators.clone();
        seps.sort();
        assert_eq!(seps, internal.separators, "root separators are not sorted");
    }
    let mut keys = Vec::new();
    collect_keys(storage, &root, &mut keys);
    let mut sorted = keys.clone();
    sorted.sort();
    assert_eq!(keys, sorted, "tree keys are not in sorted order");
}

#[test]
fn test_get_from_storage_returns_correct_value() {
    let mut storage = PageStore::with_blank_pages(1);
    let mut tree = make_tree(&mut storage);

    let first_loc = create_loc(1);
    let second_loc = create_loc(2);
    let third_loc = create_loc(3);

    // insert keys with distinct values to verify get_from_storage() returns the right one
    tree.add(&[1], first_loc, &mut storage)
        .expect("insert failed");

    tree.add(&[2], second_loc, &mut storage)
        .expect("insert failed");

    tree.add(&[3], third_loc, &mut storage)
        .expect("insert failed");

    assert!(is_loc_equal(
        tree.get(&[1], &mut storage).unwrap(),
        first_loc,
    ));

    assert!(is_loc_equal(
        tree.get(&[2], &mut storage).unwrap(),
        second_loc,
    ));

    assert!(is_loc_equal(
        tree.get(&[3], &mut storage).unwrap(),
        third_loc,
    ));
}

#[test]
fn test_get_from_storage_missing_key_returns_none() {
    let mut storage = PageStore::with_blank_pages(1);
    let mut tree = make_tree(&mut storage);

    let first_loc = create_loc(10);
    let second_loc = create_loc(20);

    tree.add(&[1], first_loc, &mut storage)
        .expect("insert failed");
    tree.add(&[2], second_loc, &mut storage)
        .expect("insert failed");

    assert!(
        tree.get(&[99], &mut storage).is_none(),
        "expected None for missing key 99"
    );
    assert!(
        tree.get(&[0], &mut storage).is_none(),
        "expected None for missing key 0"
    );
}

#[test]
fn test_get_from_storage_on_empty_tree() {
    let mut storage = PageStore::with_blank_pages(1);
    let tree = make_tree(&mut storage);

    assert!(
        tree.get(&[1], &mut storage).is_none(),
        "expected None on empty tree"
    );
}

#[test]
fn test_get_from_storage_correct_value_after_split() {
    let mut storage = PageStore::with_blank_pages(1);
    let mut tree = make_tree(&mut storage);

    // use distinct key != value so we know we're reading the right value
    //
    for i in 0u8..11 {
        let loc = create_loc(i as usize);
        tree.add(&[i], loc, &mut storage)
            .expect("insert failed");
    }

    for i in 0u8..11 {
        let loc = create_loc(i as usize);
        let result = tree.get(&[i], &mut storage);
        assert!(result.is_some(), "key {} not found", i);
        assert!(
            is_loc_equal(result.unwrap(), loc),
            "wrong value for key {}",
            i
        );
    }
}

#[test]
fn test_get_from_storage_multi_byte_key_and_value() {
    let mut storage = PageStore::with_blank_pages(1);
    let mut tree = make_tree(&mut storage);

    let key = [0xDE, 0xAD, 0xBE, 0xEF];
    let loc = create_loc(33);

    tree.add(&key, loc, &mut storage)
        .expect("insert failed");

    let result = tree.get(&key, &mut storage);
    let r_loc = result.unwrap();
    assert!(result.is_some(), "multi-byte key not found");
    assert!(
        is_loc_equal(loc, r_loc),
        "value mismatch for multi-byte key"
    );
}

#[test]
fn test_get_from_storage_boundary_keys() {
    let mut storage = PageStore::with_blank_pages(1);
    let mut tree = make_tree(&mut storage);

    let loc = create_loc(1);
    tree.add(&[u8::MIN], loc, &mut storage)
        .expect("insert failed");
    tree.add(&[u8::MAX], loc, &mut storage)
        .expect("insert failed");

    let r_loc = tree.get(&[u8::MAX], &mut storage).unwrap();
    let r_loc_two = tree.get(&[u8::MIN], &mut storage).unwrap();
    assert!(is_loc_equal(loc, r_loc));
    assert!(is_loc_equal(loc, r_loc_two));
    assert!(
        tree.get(&[128], &mut storage).is_none(),
        "expected None for key not inserted"
    );
}

fn print_page(storage: &PageStore, page: &Page) {
    match page {
        Page::Internal(n) => {
            println!("{:?}", n.separators);
            println!();
            for i in 0..n.pages.len() {
                println!("child: {i}");
                print_page(storage, &n.pages[i].load_page(storage));
            }
        }
        Page::Leaf(n) => println!("{:?}", n.keys),
    }
}

#[test]
fn test_get_from_storage_correct_value_after_multiple_splits() {
    let mut storage = PageStore::with_blank_pages(1);
    let mut tree = make_tree(&mut storage);

    let count = (MAX_KEYS_PER_PAGE * 5) as u8;
    for i in 0u8..count {
        println!("add_to_storageing {}", i);
        let loc = create_loc(i.wrapping_add(50) as usize);
        tree.add(&[i], loc, &mut storage)
            .expect("insert failed");
    }

    print_page(&storage, &tree.root_page_location.load_page(&storage));

    for i in 0u8..count {
        let result = tree.get(&[i], &mut storage);
        let r_loc = create_loc(i.wrapping_add(50) as usize);
        assert!(result.is_some(), "key {} not found", i);
        let l_loc = result.unwrap();
        assert!(is_loc_equal(l_loc, r_loc), "wrong value for key {}", i);
    }
}
