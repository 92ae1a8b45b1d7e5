use quartz_vector::codec::IndexMeta;
use quartz_vector::hnsw::{rebuild_advice, BatchItem, HnswConfig, HnswIndex, RebuildAdvice, StoredVector, MAX_LEVEL};
use quartz_vector::codec::{decode_vector, encode_vector, RecordHead};
use quartz_vector::{DistanceMetric, SearchResult, VectorError};

fn bits(v: &[f32]) -> Vec<u32> {
    v.iter().map(|x| x.to_bits()).collect()
}

fn floats(v: &[u32]) -> Vec<f32> {
    v.iter().map(|b| f32::from_bits(*b)).collect()
}

fn cosine(a: &Vec<u32>, b: &Vec<u32>) -> u32 {
    let (a, b) = (floats(a), floats(b));
    let dot: f32 = a.iter().zip(b.iter()).map(|(x, y)| x * y).sum();
    let na: f32 = a.iter().map(|x| x * x).sum::<f32>().sqrt();
    let nb: f32 = b.iter().map(|x| x * x).sum::<f32>().sqrt();
    (1.0 - dot / (na * nb)).to_bits()
}

fn euclidean(a: &Vec<u32>, b: &Vec<u32>) -> u32 {
    let (a, b) = (floats(a), floats(b));
    let s: f32 = a.iter().zip(b.iter()).map(|(x, y)| (x - y) * (x - y)).sum();
    s.sqrt().to_bits()
}

fn normalize(v: &Vec<u32>) -> Vec<u32> {
    let f = floats(v);
    let n: f32 = f.iter().map(|x| x * x).sum::<f32>().sqrt();
    if n > 0.0 {
        f.iter().map(|x| (x / n).to_bits()).collect()
    } else {
        v.clone()
    }
}

fn kernel(metric: DistanceMetric) -> fn(&Vec<u32>, &Vec<u32>) -> u32 {
    match metric {
        DistanceMetric::Cosine => cosine,
        DistanceMetric::Euclidean => euclidean,
        DistanceMetric::DotProduct => |a: &Vec<u32>, b: &Vec<u32>| {
            let (a, b) = (floats(a), floats(b));
            (-a.iter().zip(b.iter()).map(|(x, y)| x * y).sum::<f32>()).to_bits()
        },
    }
}

fn put_vector(index: &mut HnswIndex, id: &str, v: &[f32], level: usize) -> Result<(), VectorError> {
    let metric = index.metric();
    index.insert(id.to_string(), bits(v), None, level, &kernel(metric), &normalize)
}

fn find(index: &HnswIndex, q: &[f32], k: usize) -> Vec<(String, f32)> {
    let metric = index.metric();
    index
        .search(&bits(q), k, &kernel(metric), &normalize)
        .unwrap()
        .into_iter()
        .map(|r| (r.id, f32::from_bits(r.distance)))
        .collect()
}

#[test]
fn test_hnsw_config_default() {
    let config = HnswConfig::default();
    assert_eq!(config.max_connections, 16);
    assert_eq!(config.max_connections_layer0, 32);
}

#[test]
fn config_presets() {
    assert_eq!(HnswConfig::fast().max_connections, 8);
    assert_eq!(HnswConfig::fast().max_connections_layer0, 16);
    assert_eq!(HnswConfig::high_quality().max_connections, 32);
    assert_eq!(HnswConfig::high_quality().ef_search, 200);
    assert_eq!(HnswConfig::balanced(), HnswConfig::default());
}

#[test]
fn test_hnsw_insert_and_search() {
    let mut index = HnswIndex::with_config(3, DistanceMetric::Cosine, HnswConfig::fast());
    put_vector(&mut index, "1", &[1.0, 0.0, 0.0], 0).unwrap();
    put_vector(&mut index, "2", &[0.9, 0.1, 0.0], 1).unwrap();
    put_vector(&mut index, "3", &[0.0, 1.0, 0.0], 0).unwrap();
    assert_eq!(index.len(), 3);
    assert_eq!(index.stats().num_nodes, 3);
    let results = find(&index, &[1.0, 0.0, 0.0], 3);
    assert!(!results.is_empty(), "Search returned no results");
    assert!(results.iter().any(|r| r.0 == "1"), "Didn't find vector 1 in results");
}

#[test]
fn basic_search_scenario() {
    let mut index = HnswIndex::new(3, DistanceMetric::Cosine);
    put_vector(&mut index, "a", &[1.0, 0.0, 0.0], 0).unwrap();
    put_vector(&mut index, "b", &[0.9, 0.1, 0.0], 0).unwrap();
    put_vector(&mut index, "c", &[0.0, 1.0, 0.0], 0).unwrap();
    let r = find(&index, &[0.9, 0.1, 0.0], 2);
    assert_eq!(r.len(), 2);
    assert_eq!(r[0].0, "b");
    assert!(r[0].1 < 1e-3);
    assert_eq!(r[1].0, "a");
}

#[test]
fn soft_delete_scenario() {
    let mut index = HnswIndex::new(3, DistanceMetric::Cosine);
    put_vector(&mut index, "a", &[1.0, 0.0, 0.0], 0).unwrap();
    put_vector(&mut index, "b", &[0.9, 0.1, 0.0], 0).unwrap();
    put_vector(&mut index, "c", &[0.0, 1.0, 0.0], 0).unwrap();
    assert_eq!(index.soft_delete("a"), Ok(true));
    let r = find(&index, &[1.0, 0.0, 0.0], 3);
    let ids: Vec<&str> = r.iter().map(|x| x.0.as_str()).collect();
    assert_eq!(ids, vec!["b", "c"]);
    assert!(index.get("a").is_none());
    let stats = index.stats();
    assert_eq!(stats.num_deleted, 1);
    assert_eq!(stats.num_active, 2);
    assert_eq!(stats.num_vectors, 3);
    let advice = rebuild_advice(stats.num_deleted, stats.num_vectors);
    assert_eq!(advice, RebuildAdvice::ConsiderRebuild);
    assert!(advice.message().starts_with("Consider rebuild"));
}

#[test]
fn soft_delete_twice_and_undelete() {
    let mut index = HnswIndex::new(2, DistanceMetric::Euclidean);
    put_vector(&mut index, "x", &[1.0, 2.0], 0).unwrap();
    assert_eq!(index.soft_delete("x"), Ok(true));
    assert_eq!(index.soft_delete("x"), Ok(false));
    assert!(!index.contains("x"));
    assert_eq!(index.undelete("x"), Ok(true));
    assert_eq!(index.undelete("x"), Ok(false));
    assert!(index.contains("x"));
    assert_eq!(index.soft_delete("missing"), Err(VectorError::NotFound));
    assert_eq!(index.undelete("missing"), Err(VectorError::NotFound));
}

#[test]
fn dimension_mismatch_scenario() {
    let mut index = HnswIndex::new(3, DistanceMetric::Cosine);
    let err = put_vector(&mut index, "x", &[1.0, 2.0], 0);
    assert_eq!(err, Err(VectorError::DimensionMismatch { expected: 3, actual: 2 }));
    assert_eq!(index.len(), 0);
    let q = index.search(&bits(&[1.0]), 1, &cosine, &normalize);
    assert!(matches!(q, Err(VectorError::DimensionMismatch { expected: 3, actual: 1 })));
}

#[test]
fn duplicate_id_is_rejected() {
    let mut index = HnswIndex::new(2, DistanceMetric::Euclidean);
    put_vector(&mut index, "x", &[1.0, 2.0], 0).unwrap();
    assert_eq!(put_vector(&mut index, "x", &[3.0, 4.0], 0), Err(VectorError::AlreadyExists));
    assert_eq!(index.len(), 1);
    let (v, _) = index.get("x").unwrap();
    assert_eq!(floats(&v), vec![1.0, 2.0]);
}

#[test]
fn insert_get_round_trip_keeps_vector_and_metadata() {
    let mut index = HnswIndex::new(3, DistanceMetric::Euclidean);
    let v = [0.25f32, -1.5, 3.0];
    index
        .insert("doc".to_string(), bits(&v), Some("{\"k\":1}".to_string()), 0, &euclidean, &normalize)
        .unwrap();
    let (got, meta) = index.get("doc").unwrap();
    assert_eq!(got, bits(&v));
    assert_eq!(meta, Some("{\"k\":1}".to_string()));
}

#[test]
fn cosine_insert_stores_normalized_vector() {
    let mut index = HnswIndex::new(2, DistanceMetric::Cosine);
    put_vector(&mut index, "v", &[3.0, 4.0], 0).unwrap();
    let (got, _) = index.get("v").unwrap();
    let f = floats(&got);
    assert!((f[0] - 0.6).abs() < 1e-6);
    assert!((f[1] - 0.8).abs() < 1e-6);
}

#[test]
fn deleted_best_match_is_never_returned() {
    let mut index = HnswIndex::new(2, DistanceMetric::Euclidean);
    for i in 0..30 {
        let x = i as f32;
        put_vector(&mut index, &format!("pt{}", i), &[x, x * 0.5], i % 3).unwrap();
    }
    index.soft_delete("pt7").unwrap();
    for k in [1usize, 5, 30] {
        let r = find(&index, &[7.0, 3.5], k);
        assert!(r.iter().all(|x| x.0 != "pt7"));
        assert!(r.len() <= k);
    }
}

#[test]
fn results_are_sorted_and_bounded() {
    let mut index = HnswIndex::with_config(2, DistanceMetric::Euclidean, HnswConfig::fast());
    for i in 0..60 {
        let x = (i * 7 % 13) as f32;
        let y = (i * 5 % 11) as f32;
        put_vector(&mut index, &format!("n{}", i), &[x, y], i % 4).unwrap();
    }
    for k in [0usize, 1, 3, 10, 100] {
        let r = find(&index, &[4.0, 4.0], k);
        assert!(r.len() <= k);
        for w in r.windows(2) {
            assert!(w[0].1 <= w[1].1);
        }
    }
    assert_eq!(find(&index, &[4.0, 4.0], 0).len(), 0);
}

#[test]
fn every_vector_finds_itself() {
    let mut index = HnswIndex::new(4, DistanceMetric::Cosine);
    let mut vs = Vec::new();
    for i in 0..40 {
        let v = [(i as f32).sin(), (i as f32 * 0.7).cos(), 1.0 + i as f32 * 0.01, (i % 5) as f32];
        put_vector(&mut index, &format!("s{}", i), &v, i % 3).unwrap();
        vs.push(v);
    }
    for v in &vs {
        let r = find(&index, v, 1);
        assert_eq!(r.len(), 1);
        assert!(r[0].0.starts_with('s'));
        assert!(r[0].1 < 0.01);
    }
}

#[test]
fn level_above_cap_is_clamped() {
    let mut index = HnswIndex::new(2, DistanceMetric::Euclidean);
    put_vector(&mut index, "top", &[0.0, 0.0], 50).unwrap();
    assert_eq!(index.stats().entry_point_level, MAX_LEVEL);
    put_vector(&mut index, "low", &[1.0, 1.0], 0).unwrap();
    assert_eq!(index.stats().entry_point_level, MAX_LEVEL);
    let s = index.stats();
    assert_eq!(s.connections_per_layer.len(), MAX_LEVEL + 1);
    assert_eq!(s.connections_per_layer[0], 2);
}

#[test]
fn connection_caps_hold_after_many_inserts() {
    let config = HnswConfig { max_connections: 2, max_connections_layer0: 4, ef_construction: 10, ef_search: 10 };
    let mut index = HnswIndex::with_config(2, DistanceMetric::Euclidean, config);
    for i in 0..50 {
        put_vector(&mut index, &format!("c{}", i), &[(i % 7) as f32, (i / 7) as f32], i % 2).unwrap();
    }
    let s = index.stats();
    assert!(s.connections_per_layer[0] <= 4 * 50);
    assert!(s.connections_per_layer[1] <= 2 * 50);
    assert_eq!(s.connections_per_layer[0] % 2, 0);
}

#[test]
fn rebuild_advice_thresholds() {
    assert_eq!(rebuild_advice(0, 0), RebuildAdvice::Healthy);
    assert_eq!(rebuild_advice(1, 10), RebuildAdvice::Healthy);
    assert_eq!(rebuild_advice(2, 10), RebuildAdvice::MinorImpact);
    assert_eq!(rebuild_advice(3, 10), RebuildAdvice::ConsiderRebuild);
    assert_eq!(rebuild_advice(6, 10), RebuildAdvice::RebuildStronglyRecommended);
    assert_eq!(RebuildAdvice::Healthy.message(), "Healthy: <10% vectors deleted");
}

#[test]
fn test_single_vector() {
    let mut index = HnswIndex::new(3, DistanceMetric::Euclidean);
    put_vector(&mut index, "1", &[1.0, 2.0, 3.0], 0).unwrap();
    let results = find(&index, &[1.0, 2.0, 3.0], 1);
    assert_eq!(results.len(), 1);
    assert_eq!(results[0].0, "1");
}

#[test]
fn test_empty_index_search() {
    let index = HnswIndex::new(3, DistanceMetric::Cosine);
    let results = find(&index, &[1.0, 2.0, 3.0], 10);
    assert_eq!(results.len(), 0);
}

#[test]
fn test_zero_vector() {
    let mut index = HnswIndex::new(128, DistanceMetric::Euclidean);
    put_vector(&mut index, "42", &vec![0.0; 128], 0).unwrap();
    let results = find(&index, &vec![0.0; 128], 1);
    assert_eq!(results.len(), 1);
    assert_eq!(results[0].0, "42");
}

#[test]
fn test_normalized_vectors() {
    let mut index = HnswIndex::new(3, DistanceMetric::Cosine);
    put_vector(&mut index, "1", &[1.0, 1.0, 1.0], 0).unwrap();
    put_vector(&mut index, "2", &[2.0, 2.0, 2.0], 0).unwrap();
    let results = find(&index, &[1.0, 1.0, 1.0], 2);
    assert_eq!(results.len(), 2);
    assert!(results[0].1 < 0.1);
    assert!(results[1].1 < 0.1);
}

#[test]
fn test_different_metrics() {
    let mut cos = HnswIndex::new(2, DistanceMetric::Cosine);
    put_vector(&mut cos, "1", &[1.0, 0.0], 0).unwrap();
    put_vector(&mut cos, "2", &[0.0, 1.0], 0).unwrap();
    let mut euc = HnswIndex::new(2, DistanceMetric::Euclidean);
    put_vector(&mut euc, "1", &[1.0, 0.0], 0).unwrap();
    put_vector(&mut euc, "2", &[0.0, 1.0], 0).unwrap();
    let rc = find(&cos, &[1.0, 1.0], 2);
    let re = find(&euc, &[1.0, 1.0], 2);
    assert!(rc[0].1 != re[0].1);
}

#[test]
fn reopening_from_records_reproduces_vectors_and_results() {
    let mut built = HnswIndex::with_config(3, DistanceMetric::Cosine, HnswConfig::fast());
    let mut records = Vec::new();
    for i in 0..25usize {
        let v = [1.0 + i as f32, (i % 4) as f32 - 1.5, (i as f32 * 0.3).sin()];
        let level = (i * 7) % 3;
        let head = RecordHead { deleted: false, level: level as u8, position: i as u32 };
        records.push(encode_vector(&bits(&v), head));
        put_vector(&mut built, &format!("v{}", i), &v, level).unwrap();
    }
    let mut reopened = HnswIndex::with_config(3, DistanceMetric::Cosine, HnswConfig::fast());
    for (i, r) in records.iter().enumerate() {
        let (v, head) = decode_vector(r).unwrap();
        assert_eq!(head.position as usize, i);
        reopened
            .insert(format!("v{}", i), v, None, head.level as usize, &cosine, &normalize)
            .unwrap();
    }
    assert_eq!(reopened.len(), 25);
    for i in 0..25 {
        let id = format!("v{}", i);
        assert_eq!(built.get(&id).unwrap().0, reopened.get(&id).unwrap().0);
    }
    for q in [[1.0f32, 0.0, 0.0], [3.0, -1.0, 0.5], [20.0, 1.5, -0.2]] {
        let a = built.search(&bits(&q), 5, &cosine, &normalize).unwrap();
        let b = reopened.search(&bits(&q), 5, &cosine, &normalize).unwrap();
        assert_eq!(a.len(), b.len());
        for (x, y) in a.iter().zip(b.iter()) {
            assert_eq!(x.id, y.id);
            assert_eq!(x.distance, y.distance);
        }
    }
}

#[test]
fn test_search_result_with_metadata() {
    let result = SearchResult::with_metadata("1".to_string(), 0.9f32.to_bits(), "test metadata".to_string());
    assert_eq!(result.id, "1");
    assert_eq!(f32::from_bits(result.distance), 0.9);
    assert_eq!(result.metadata, Some("test metadata".to_string()));
    let plain = SearchResult::new("2".to_string(), 0.5f32.to_bits());
    assert!(plain.metadata.is_none());
}

#[test]
fn batch_insert_reports_each_item() {
    let mut index = HnswIndex::new(2, DistanceMetric::Euclidean);
    put_vector(&mut index, "old", &[0.0, 0.0], 0).unwrap();
    let item = |id: &str, v: &[f32]| BatchItem { id: id.to_string(), vector: bits(v), metadata: None, level: 1 };
    let items = vec![
        item("a", &[1.0, 1.0]),
        item("old", &[2.0, 2.0]),
        item("b", &[1.0]),
        item("a", &[3.0, 3.0]),
        item("c", &[4.0, 4.0]),
    ];
    let results = index.insert_batch(items, &euclidean, &normalize);
    assert_eq!(
        results,
        vec![
            Ok(()),
            Err(VectorError::AlreadyExists),
            Err(VectorError::DimensionMismatch { expected: 2, actual: 1 }),
            Err(VectorError::AlreadyExists),
            Ok(()),
        ]
    );
    assert_eq!(index.len(), 3);
    assert_eq!(floats(&index.get("a").unwrap().0), vec![1.0, 1.0]);
    assert!(index.get("c").is_some());
}

#[test]
fn snapshot_restores_entries_layers_and_results() {
    let mut built = HnswIndex::with_config(2, DistanceMetric::Cosine, HnswConfig::fast());
    for i in 0..30usize {
        let v = [1.0 + (i % 7) as f32, (i as f32 * 0.4).cos()];
        let meta = if i % 3 == 0 { Some(format!("{{\"n\":{}}}", i)) } else { None };
        built.insert(format!("e{}", i), bits(&v), meta, i % 4, &cosine, &normalize).unwrap();
    }
    built.soft_delete("e4").unwrap();
    let blob = built.snapshot().unwrap();
    let restored = HnswIndex::restore(&blob, &cosine).unwrap();
    assert_eq!(restored.snapshot().unwrap(), blob);
    assert_eq!(restored.len(), 30);
    assert!(restored.get("e4").is_none());
    assert_eq!(restored.get("e3").unwrap(), built.get("e3").unwrap());
    assert_eq!(restored.stats().entry_point_level, built.stats().entry_point_level);
    assert_eq!(restored.stats().connections_per_layer, built.stats().connections_per_layer);
    for q in [[1.0f32, 0.0], [2.0, 0.5], [7.0, -1.0]] {
        let a = built.search(&bits(&q), 4, &cosine, &normalize).unwrap();
        let b = restored.search(&bits(&q), 4, &cosine, &normalize).unwrap();
        let a: Vec<(String, u32)> = a.into_iter().map(|r| (r.id, r.distance)).collect();
        let b: Vec<(String, u32)> = b.into_iter().map(|r| (r.id, r.distance)).collect();
        assert_eq!(a, b);
    }
}

#[test]
fn damaged_snapshots_are_refused() {
    let mut built = HnswIndex::new(2, DistanceMetric::Euclidean);
    put_vector(&mut built, "a", &[1.0, 2.0], 1).unwrap();
    let blob = built.snapshot().unwrap();
    assert!(HnswIndex::restore(&blob[..blob.len() - 1], &euclidean).is_err());
    let mut longer = blob.clone();
    longer.push(0);
    assert_eq!(HnswIndex::restore(&longer, &euclidean).err(), Some(VectorError::SerializationError));
    let mut other_version = blob.clone();
    other_version[0] = 9;
    assert_eq!(HnswIndex::restore(&other_version, &euclidean).err(), Some(VectorError::InvalidVector));
    assert!(HnswIndex::restore(&[], &euclidean).is_err());
    let empty = HnswIndex::new(3, DistanceMetric::Cosine);
    let restored = HnswIndex::restore(&empty.snapshot().unwrap(), &cosine).unwrap();
    assert_eq!(restored.len(), 0);
    assert_eq!(restored.dimension(), 3);
}

fn stored(id: &str, v: &[f32], deleted: bool, level: u8, position: u32) -> StoredVector {
    StoredVector { id: id.to_string(), vector: bits(v), head: RecordHead { deleted, level, position }, metadata: None }
}

#[test]
fn recover_replays_records_in_insertion_order() {
    let meta = IndexMeta { dimension: 2, metric: DistanceMetric::Euclidean, config: HnswConfig::fast() };
    let records = vec![
        stored("b", &[2.0, 2.0], false, 1, 1),
        stored("a", &[1.0, 1.0], false, 0, 0),
        stored("c", &[3.0, 3.0], true, 0, 2),
    ];
    let index = HnswIndex::recover(meta, None, records, &euclidean, &normalize).unwrap();
    assert_eq!(index.len(), 3);
    assert!(index.get("a").is_some());
    assert!(index.get("c").is_none());
    assert!(!index.contains("c"));
    let r = find(&index, &[1.0, 1.0], 3);
    assert_eq!(r.iter().map(|x| x.0.as_str()).collect::<Vec<_>>(), vec!["a", "b"]);
}

#[test]
fn recover_installs_snapshot_and_applies_newer_records() {
    let mut built = HnswIndex::with_config(2, DistanceMetric::Euclidean, HnswConfig::fast());
    put_vector(&mut built, "a", &[1.0, 0.0], 0).unwrap();
    put_vector(&mut built, "b", &[0.0, 1.0], 1).unwrap();
    let blob = built.snapshot().unwrap();
    let meta = IndexMeta { dimension: 2, metric: DistanceMetric::Euclidean, config: HnswConfig::fast() };
    let records = vec![
        stored("a", &[1.0, 0.0], true, 0, 0),
        stored("b", &[0.0, 1.0], false, 1, 1),
        stored("c", &[5.0, 5.0], false, 0, 2),
    ];
    let index = HnswIndex::recover(meta, Some(blob), records, &euclidean, &normalize).unwrap();
    assert_eq!(index.len(), 3);
    assert!(index.get("a").is_none());
    assert_eq!(index.stats().entry_point_level, built.stats().entry_point_level);
    assert!(index.get("c").is_some());
}

#[test]
fn recover_falls_back_and_reports_bad_records() {
    let meta = IndexMeta { dimension: 2, metric: DistanceMetric::Euclidean, config: HnswConfig::fast() };
    let records = vec![stored("a", &[1.0, 0.0], false, 0, 0)];
    let index = HnswIndex::recover(meta, Some(vec![1, 2, 3]), records, &euclidean, &normalize).unwrap();
    assert_eq!(index.len(), 1);
    let bad = vec![stored("x", &[1.0], false, 0, 0)];
    assert_eq!(
        HnswIndex::recover(meta, None, bad, &euclidean, &normalize).err(),
        Some(VectorError::DimensionMismatch { expected: 2, actual: 1 })
    );
}

#[test]
fn equal_distances_come_in_identifier_order() {
    let mut index = HnswIndex::new(2, DistanceMetric::Euclidean);
    put_vector(&mut index, "b", &[1.0, 0.0], 0).unwrap();
    put_vector(&mut index, "a", &[0.0, 1.0], 0).unwrap();
    put_vector(&mut index, "c", &[-1.0, 0.0], 0).unwrap();
    let r = find(&index, &[0.0, 0.0], 3);
    assert_eq!(r.iter().map(|x| x.0.as_str()).collect::<Vec<_>>(), vec!["a", "b", "c"]);
}

#[test]
fn recovering_a_hundred_records_keeps_every_vector() {
    let meta = IndexMeta { dimension: 3, metric: DistanceMetric::Cosine, config: HnswConfig::fast() };
    let mut records = Vec::new();
    for i in 0..100u32 {
        let v = [1.0 + i as f32, (i % 7) as f32, 0.5];
        let mut rec = stored(&format!("v{}", i), &v, false, (i % 3) as u8, i);
        rec.metadata = Some(format!("{{\"i\":{}}}", i));
        records.push(rec);
    }
    let index = HnswIndex::recover(meta, None, records, &cosine, &normalize).unwrap();
    assert_eq!(index.stats().num_vectors, 100);
    for i in 0..100u32 {
        let v = [1.0 + i as f32, (i % 7) as f32, 0.5];
        let (got, m) = index.get(&format!("v{}", i)).unwrap();
        assert_eq!(got, normalize(&bits(&v)));
        assert_eq!(m, Some(format!("{{\"i\":{}}}", i)));
    }
}
