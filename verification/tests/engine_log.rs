use homelab_db::database_engine::database_engine_errors::DatabaseEngineError;
use homelab_db::database_engine::config::StorageConfig;
use homelab_db::database_engine::manifest::Manifest;
use homelab_db::database_engine::wal::{check_record, op_code, signed_record, WalOperation, WalRecordData};

#[test]
fn signed_record_passes_check_with_same_key() {
    let key = [3u8; 32];
    let r = signed_record(WalOperation::Update, b"k".to_vec(), b"v".to_vec(), &key);
    assert_eq!(r.version, 1);
    let d = check_record(r, &key).unwrap();
    assert_eq!(d.key, b"k".to_vec());
    assert_eq!(d.value, b"v".to_vec());
    assert_eq!(d.operation, WalOperation::Update);
}

#[test]
fn signed_record_fails_check_with_other_key() {
    let r = signed_record(WalOperation::Delete, b"k".to_vec(), b"v".to_vec(), &[1u8; 32]);
    match check_record(r, &[2u8; 32]) {
        Err(DatabaseEngineError::Wal(m)) => assert_eq!(m, "invalid check_sum"),
        Ok(_) => panic!("a record signed under another key passed"),
    }
}

#[test]
fn checksum_is_hmac_of_key_value_and_operation() {
    let data = WalRecordData { key: b"ab".to_vec(), value: b"c".to_vec(), operation: WalOperation::Delete };
    let expected = hmac_sha256::HMAC::mac(b"abc\x02", [7u8; 32]);
    assert_eq!(data.generate_checksum(&[7u8; 32]), expected);
    let changed = WalRecordData { key: b"ab".to_vec(), value: b"c".to_vec(), operation: WalOperation::Update };
    assert_ne!(changed.generate_checksum(&[7u8; 32]), expected);
}

#[test]
fn operation_bytes() {
    assert_eq!(op_code(WalOperation::Update), 1);
    assert_eq!(op_code(WalOperation::Delete), 2);
}

#[test]
fn engine_manifest_starts_at_first_file() {
    let m = Manifest::with_hmac_key([5u8; 32]);
    assert_eq!(m.version, 1);
    assert_eq!(m.wal_manifest.active_idx, 0);
    assert_eq!(m.wal_manifest.hmac_key, [5u8; 32]);
    let fresh = Manifest::new();
    assert_eq!(fresh.wal_manifest.active_idx, 0);
}

#[test]
fn engine_manifest_lives_in_the_config_directory() {
    let config = StorageConfig {
        config_directory: "conf".to_string(),
        wal_directory: "wal".to_string(),
        sst_directory: "sst".to_string(),
    };
    assert_eq!(Manifest::manifest_path(&config), std::path::Path::new("conf/manifest").with_extension("json"));
}
