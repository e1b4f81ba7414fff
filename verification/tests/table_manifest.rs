use homelab_db::common::keyvalue::{Key, Value};
use homelab_db::storage::config::DirectoriesConfig;
use homelab_db::storage::manifest::Manifest;

#[test]
fn tables_and_indexes_are_recorded_in_order() {
    let mut m = Manifest::new("dir");
    assert_eq!(m.version, 1);
    m.add_table("users");
    m.add_table("orders");
    m.add_index("orders", "by_id");
    m.add_index("orders", "by_date");
    assert_eq!(m.tables.len(), 2);
    assert!(m.tables[0].indexes.is_empty());
    assert_eq!(m.tables[1].indexes, vec!["by_id".to_string(), "by_date".to_string()]);
}

#[test]
fn remove_index_takes_out_the_named_index() {
    let mut m = Manifest::new("dir");
    m.add_table("t");
    m.add_index("t", "a");
    m.add_index("t", "b");
    m.add_index("t", "c");
    m.remove_index("t", "b");
    assert_eq!(m.tables[0].indexes, vec!["a".to_string(), "c".to_string()]);
}

#[test]
fn remove_index_of_unknown_name_changes_nothing() {
    let mut m = Manifest::new("dir");
    m.add_table("t");
    m.add_index("t", "a");
    m.remove_index("t", "zz");
    assert_eq!(m.tables[0].indexes, vec!["a".to_string()]);
}

#[test]
fn add_index_goes_to_first_table_of_that_name() {
    let mut m = Manifest::new("dir");
    m.add_table("t");
    m.add_table("t");
    m.add_index("t", "i");
    assert_eq!(m.tables[0].indexes, vec!["i".to_string()]);
    assert!(m.tables[1].indexes.is_empty());
}

#[test]
fn keys_and_values_hold_their_bytes() {
    let k = Key::from_slice(&[1, 2]);
    assert_eq!(k.bytes, vec![1, 2]);
    assert_eq!(Key::new(vec![3]).as_ref(), &[3u8]);
    assert_eq!(Key::from(vec![4u8]), Key::new(vec![4]));
    let v = Value::from_slice(b"x");
    assert_eq!(v.as_ref(), b"x");
    assert_eq!(Value::from(vec![5u8]), Value::new(vec![5]));
}

#[test]
fn table_manifest_lives_in_the_manifest_directory() {
    let config = DirectoriesConfig {
        heap_files: "heap".to_string(),
        index_files: "index".to_string(),
        manifest: "meta".to_string(),
    };
    assert_eq!(Manifest::manifest_path(&config), std::path::Path::new("meta/manifest").with_extension("json"));
}
