use homelab_db::wal::config::DirectoriesConfig;
use homelab_db::wal::manifest::{wal_file_name, Manifest, WalPartition};
use homelab_db::wal::wal::{check_record, frame, new_record, split_frames, u64_to_le, WalError};

#[test]
fn frame_prefixes_little_endian_length() {
    let f = frame(&[7u8, 8, 9]);
    assert_eq!(f, vec![3u8, 0, 0, 0, 0, 0, 0, 0, 7, 8, 9]);
}

#[test]
fn u64_to_le_writes_low_byte_first() {
    assert_eq!(u64_to_le(0x0102_0304_0506_0708), vec![8u8, 7, 6, 5, 4, 3, 2, 1]);
}

#[test]
fn split_frames_reads_back_what_was_framed() {
    let payloads: Vec<Vec<u8>> = vec![vec![1, 2, 3], vec![], vec![42; 300]];
    let mut bytes = Vec::new();
    for p in &payloads {
        bytes.extend(frame(p));
    }
    let (read, truncated) = split_frames(&bytes);
    assert_eq!(read, payloads);
    assert!(!truncated);
}

#[test]
fn split_frames_stops_at_short_header() {
    let mut bytes = frame(&[5u8]);
    bytes.extend([1u8, 2, 3]);
    let (read, truncated) = split_frames(&bytes);
    assert_eq!(read, vec![vec![5u8]]);
    assert!(!truncated);
}

#[test]
fn split_frames_reports_truncated_payload() {
    let mut bytes = frame(&[5u8]);
    bytes.extend(u64_to_le(10));
    bytes.extend([1u8, 2]);
    let (read, truncated) = split_frames(&bytes);
    assert_eq!(read, vec![vec![5u8]]);
    assert!(truncated);
}

#[test]
fn new_record_sets_fixed_fields() {
    let key = [5u8; 32];
    let r = new_record(vec![1, 2], 77, &key);
    assert_eq!(r.version, 1);
    assert_eq!(r.lsn, 1);
    assert_eq!(r.timestamp, 77);
    assert_eq!(r.check_sum, hmac_sha256::HMAC::mac([1u8, 2], key));
    assert_ne!(r.check_sum, [1u8; 32]);
    assert_eq!(r.data, vec![1, 2]);
}

#[test]
fn signed_log_record_passes_check_under_its_key() {
    let key = [9u8; 32];
    let r = new_record(b"payload".to_vec(), 1, &key);
    assert_eq!(check_record(r, &key).unwrap(), b"payload".to_vec());
}

#[test]
fn log_record_fails_check_under_another_key() {
    let r = new_record(b"payload".to_vec(), 1, &[9u8; 32]);
    assert!(matches!(check_record(r, &[8u8; 32]), Err(WalError::InvalidChecksum)));
}

#[test]
fn tampered_log_record_fails_check() {
    let key = [9u8; 32];
    let mut r = new_record(b"payload".to_vec(), 1, &key);
    r.data[0] = b'P';
    assert!(matches!(check_record(r, &key), Err(WalError::InvalidChecksum)));
}

#[test]
fn wal_file_name_is_decimal() {
    assert_eq!(wal_file_name(3, 0), "3_0.wal");
    assert_eq!(wal_file_name(255, 4294967295), "255_4294967295.wal");
    assert_eq!(wal_file_name(10, 120), "10_120.wal");
}

#[test]
fn partition_init_then_increment_moves_segments() {
    let mut m = Manifest::with_hmac_key("cfg", [9u8; 32]);
    assert_eq!(m.version, 1);
    assert_eq!(m.wal_manifest.max_size, 10);
    m.wal_partition_init(1);
    assert_eq!(m.wal_filename(1), "1_0.wal");
    for _ in 0..9 {
        m.wal_maybe_increment(1);
    }
    assert_eq!(m.wal_filename(1), "1_0.wal");
    m.wal_maybe_increment(1);
    assert_eq!(m.wal_filename(1), "1_1.wal");
    let p = m.wal_manifest.partiton[&1];
    assert_eq!((p.last_idx, p.ack_idx, p.file_idx), (10, 10, 1));
}

#[test]
fn partition_init_keeps_existing_partition() {
    let mut m = Manifest::with_hmac_key("cfg", [0u8; 32]);
    m.wal_manifest.partiton.insert(2, WalPartition { file_idx: 5, last_idx: 51, ack_idx: 20 });
    m.wal_partition_init(2);
    assert_eq!(m.wal_manifest.partiton[&2].file_idx, 5);
}

#[test]
fn pending_files_span_ack_to_last() {
    let mut m = Manifest::with_hmac_key("cfg", [0u8; 32]);
    m.wal_manifest.partiton.insert(4, WalPartition { file_idx: 3, last_idx: 35, ack_idx: 12 });
    assert_eq!(m.pending_file_location(4), vec!["4_1.wal", "4_2.wal", "4_3.wal"]);
    m.wal_manifest.partiton.insert(5, WalPartition { file_idx: 0, last_idx: 3, ack_idx: 25 });
    assert!(m.pending_file_location(5).is_empty());
}

#[test]
fn new_manifest_has_no_partitions() {
    let m = Manifest::new("dir");
    assert_eq!(m.file_path, "dir");
    assert!(m.wal_manifest.partiton.is_empty());
}

#[test]
fn log_manifest_lives_in_the_config_directory() {
    let config = DirectoriesConfig {
        config_directory: "conf".to_string(),
        wal_directory: "segments".to_string(),
    };
    assert_eq!(Manifest::manifest_path(&config), std::path::Path::new("conf/manifest").with_extension("json"));
}
