use homelab_db::storage::btree::leaf_page::Leaf;
use homelab_db::storage::btree::location::{Location, PageStore, RefPageLocation, RefValueLocation};
use homelab_db::storage::btree::page::Page;
use homelab_db::storage::btree::tree::PagingBtree;
use homelab_db::storage::storage_error::StorageError;
use homelab_db::storage::table::TableIndexes;

fn empty_index() -> PagingBtree {
    let mut storage = PageStore::with_blank_pages(1);
    RefPageLocation { start_offset: 0 }.write_page(&Page::Leaf(Leaf { keys: Vec::new(), values: Vec::new() }), &mut storage);
    PagingBtree::with_storage(storage)
}

#[test]
fn rows_recorded_under_a_key_are_located_in_that_index_only() {
    let mut t = TableIndexes::new();
    t.create_index("by_id", empty_index()).unwrap();
    t.create_index("by_name", empty_index()).unwrap();
    t.insert_location("by_id", &[7], RefValueLocation { start_offset: 100, size: 12 }).unwrap();
    match t.locate("by_id", &[7]).unwrap() {
        Location::Value(v) => assert_eq!((v.start_offset, v.size), (100, 12)),
        Location::Page(_) => panic!("expected a row location"),
    }
    assert!(matches!(t.locate("by_name", &[7]), Err(StorageError::IndexKeyNotFound())));
    assert!(matches!(t.locate("by_id", &[8]), Err(StorageError::IndexKeyNotFound())));
}

#[test]
fn an_unknown_index_name_is_reported_and_changes_nothing() {
    let mut t = TableIndexes::new();
    t.create_index("by_id", empty_index()).unwrap();
    match t.insert_location("nope", &[1], RefValueLocation { start_offset: 0, size: 1 }) {
        Err(StorageError::IndexNotFound(n)) => assert_eq!(n, "nope"),
        _ => panic!("expected IndexNotFound"),
    }
    match t.locate("nope", &[1]) {
        Err(StorageError::IndexNotFound(n)) => assert_eq!(n, "nope"),
        _ => panic!("expected IndexNotFound"),
    }
    assert!(matches!(t.drop_index("nope"), Err(StorageError::IndexNotFound(_))));
    assert_eq!(t.indexes.len(), 1);
}

#[test]
fn an_index_name_is_used_once_and_can_be_dropped() {
    let mut t = TableIndexes::new();
    t.create_index("by_id", empty_index()).unwrap();
    match t.create_index("by_id", empty_index()) {
        Err(StorageError::IndexAlreadyExists(n)) => assert_eq!(n, "by_id"),
        _ => panic!("expected IndexAlreadyExists"),
    }
    t.drop_index("by_id").unwrap();
    assert!(t.indexes.is_empty());
    assert!(matches!(t.locate("by_id", &[1]), Err(StorageError::IndexNotFound(_))));
}

#[test]
fn check_index_accepts_indexes_the_library_builds() {
    assert!(homelab_db::storage::btree::check::check_index(&empty_index().storage, RefPageLocation { start_offset: 0 }));
    let mut tree = empty_index();
    for i in 0u8..40 {
        tree.insert(&[i], Location::Value(RefValueLocation { start_offset: i as u64, size: 1 })).unwrap();
    }
    assert!(homelab_db::storage::btree::check::check_index(&tree.storage, RefPageLocation { start_offset: 0 }));
}

#[test]
fn check_index_refuses_a_page_that_is_its_own_child() {
    let mut storage = PageStore::with_blank_pages(1);
    let root = Page::Internal(homelab_db::storage::btree::internal_page::Internal {
        separators: vec![vec![5]],
        pages: vec![Location::Page(RefPageLocation { start_offset: 0 }), Location::Page(RefPageLocation { start_offset: 0 })],
    });
    RefPageLocation { start_offset: 0 }.write_page(&root, &mut storage);
    assert!(!homelab_db::storage::btree::check::check_index(&storage, RefPageLocation { start_offset: 0 }));
    assert!(!homelab_db::storage::btree::check::check_index(&storage, RefPageLocation { start_offset: 4096 }));
}
