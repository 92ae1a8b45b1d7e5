use quartz_vector::codec::{
    decode_index_meta, decode_text, decode_vector, encode_index_meta, encode_text, encode_vector,
    metadata_key, replay_order, vector_key, IndexMeta, RecordHead, FORMAT_VERSION,
};
use quartz_vector::flush::{FlushAction, FlushState};
use quartz_vector::lsm::{bytes_le, Level, SSTable, StorageConfig};
use quartz_vector::{DistanceMetric, HnswConfig, VectorError};

#[test]
fn vector_record_round_trip_is_bit_exact() {
    let v: Vec<u32> = [1.0f32, -0.0, f32::MIN_POSITIVE, 123.456].iter().map(|x| x.to_bits()).collect();
    let head = RecordHead { deleted: true, level: 3, position: 70000 };
    let bytes = encode_vector(&v, head);
    assert_eq!(bytes.len(), 11 + 4 * v.len());
    assert_eq!(bytes[0], FORMAT_VERSION);
    let (back, h) = decode_vector(&bytes).unwrap();
    assert_eq!(back, v);
    assert_eq!(h, head);
    let plain = RecordHead { deleted: false, level: 0, position: 0 };
    let (empty, h2) = decode_vector(&encode_vector(&vec![], plain)).unwrap();
    assert!(empty.is_empty());
    assert_eq!(h2, plain);
}

#[test]
fn vector_record_layout_is_big_endian() {
    let bytes = encode_vector(&vec![0x0102_0304], RecordHead { deleted: false, level: 2, position: 0x0a0b_0c0d });
    assert_eq!(bytes, vec![1, 0, 2, 10, 11, 12, 13, 0, 0, 0, 1, 1, 2, 3, 4]);
}

#[test]
fn malformed_vector_records_are_refused() {
    assert_eq!(decode_vector(&[]), Err(VectorError::SerializationError));
    assert_eq!(decode_vector(&[2, 0, 0, 0, 0, 0, 0, 0, 0, 0, 0]), Err(VectorError::SerializationError));
    assert_eq!(decode_vector(&[1, 2, 0, 0, 0, 0, 0, 0, 0, 0, 0]), Err(VectorError::SerializationError));
    assert_eq!(decode_vector(&[1, 0, 0, 0, 0, 0, 0, 0, 0, 0, 1, 9, 9]), Err(VectorError::SerializationError));
    assert!(decode_vector(&[1, 0, 0, 0, 0, 0, 0, 0, 0, 0, 0]).is_ok());
}

#[test]
fn index_record_round_trip_and_version_gate() {
    let meta = IndexMeta { dimension: 384, metric: DistanceMetric::DotProduct, config: HnswConfig::high_quality() };
    let bytes = encode_index_meta(&meta);
    assert_eq!(bytes.len(), 22);
    assert_eq!(decode_index_meta(&bytes), Ok(meta));
    let mut other = bytes.clone();
    other[0] = 2;
    assert_eq!(decode_index_meta(&other), Err(VectorError::InvalidVector));
    assert_eq!(decode_index_meta(&bytes[..21]), Err(VectorError::SerializationError));
    let mut bad_metric = bytes.clone();
    bad_metric[1] = 7;
    assert_eq!(decode_index_meta(&bad_metric), Err(VectorError::SerializationError));
}

#[test]
fn text_and_keys() {
    let t = encode_text("héllo");
    assert_eq!(t, "héllo".as_bytes().to_vec());
    assert_eq!(decode_text(&t).unwrap(), "héllo");
    assert_eq!(decode_text(&[0xff, 0xfe]), Err(VectorError::SerializationError));
    assert_eq!(vector_key("a1"), b"__vector__a1".to_vec());
    assert_eq!(metadata_key("a1"), b"__vector_meta__a1".to_vec());
}

#[test]
fn flush_runs_once_per_burst_of_changes() {
    let mut s = FlushState::new();
    assert_eq!(s.on_mutation(), FlushAction::Schedule);
    assert_eq!(s.on_mutation(), FlushAction::Idle);
    assert_eq!(s.on_timer(), FlushAction::Persist);
    assert_eq!(s.on_persisted(true), FlushAction::Idle);
    assert_eq!(s, FlushState { dirty: false, scheduled: false });
    assert_eq!(s.on_timer(), FlushAction::Idle);
    assert_eq!(s.on_mutation(), FlushAction::Schedule);
}

#[test]
fn failed_flush_is_retried() {
    let mut s = FlushState::new();
    s.on_mutation();
    assert_eq!(s.on_timer(), FlushAction::Persist);
    assert_eq!(s.on_persisted(false), FlushAction::Schedule);
    assert!(s.dirty && s.scheduled);
    assert_eq!(s.on_mutation(), FlushAction::Idle);
    assert_eq!(s.on_timer(), FlushAction::Persist);
}

#[test]
fn sstable_ranges_and_level_search() {
    let t = SSTable::new(1, b"key1".to_vec(), b"key9".to_vec());
    assert!(t.contains_key(b"key1"));
    assert!(t.contains_key(b"key5"));
    assert!(t.contains_key(b"key9"));
    assert!(!t.contains_key(b"key"));
    assert!(!t.contains_key(b"keyA"));
    let mut level = Level::new(0);
    level.add_sstable(t);
    level.add_sstable(SSTable::new(2, b"a".to_vec(), b"c".to_vec()));
    assert_eq!(level.files.len(), 2);
    assert_eq!(level.search(b"b"), Some(2));
    assert_eq!(level.search(b"key3"), Some(1));
    assert_eq!(level.search(b"z"), None);
    assert!(bytes_le(b"", b""));
    assert!(bytes_le(b"ab", b"abc"));
    assert!(!bytes_le(b"abc", b"ab"));
}

#[test]
fn storage_config_defaults() {
    let c = StorageConfig::default();
    assert_eq!(c.cache_size, 1000);
    assert_eq!(c.compaction_threshold, 4);
    assert_eq!(c.max_level_size, 10);
    assert!(c.enable_wal);
}

#[test]
fn replay_follows_insertion_positions() {
    let head = |p: u32| RecordHead { deleted: false, level: 0, position: p };
    let heads = vec![head(5), head(0), head(3), head(1), head(3)];
    assert_eq!(replay_order(&heads), vec![1, 3, 2, 4, 0]);
    assert!(replay_order(&vec![]).is_empty());
}
