use quartz_vector::sharding::DEFAULT_SHARD_COUNT;
use quartz_vector::{merge_shard_results, SearchMatch, ShardRouter, ShardSearchResult};

fn hit(id: &str, distance: f32) -> SearchMatch {
    SearchMatch { id: id.to_string(), distance: distance.to_bits(), metadata: None }
}

#[test]
fn test_shard_routing_consistency() {
    let router = ShardRouter::new(10);
    let key = "test-document-123";
    let shard1 = router.get_shard(key);
    let shard2 = router.get_shard(key);
    assert_eq!(shard1, shard2);
}

#[test]
fn test_shard_distribution() {
    let router = ShardRouter::new(10);
    let mut shard_counts = vec![0; 10];
    for i in 0..1000 {
        let key = format!("key-{}", i);
        let shard = router.get_shard(&key);
        shard_counts[shard] += 1;
    }
    for count in shard_counts {
        assert!(count > 70 && count < 130, "Uneven distribution: {}", count);
    }
}

#[test]
fn test_merge_results() {
    let shard1 = ShardSearchResult { shard_id: 0, results: vec![hit("doc1", 0.1), hit("doc2", 0.3)] };
    let shard2 = ShardSearchResult { shard_id: 1, results: vec![hit("doc3", 0.2), hit("doc1", 0.5)] };
    let merged = merge_shard_results(vec![shard1, shard2], 3);
    assert_eq!(merged.len(), 3);
    assert_eq!(merged[0].id, "doc1");
    assert_eq!(f32::from_bits(merged[0].distance), 0.1);
    assert_eq!(merged[1].id, "doc3");
    assert_eq!(merged[2].id, "doc2");
}

#[test]
fn test_all_shards() {
    let router = ShardRouter::new(5);
    let all = router.all_shards();
    assert_eq!(all, vec![0, 1, 2, 3, 4]);
}

#[test]
fn test_shard_name() {
    let router = ShardRouter::new(10);
    assert_eq!(router.get_shard_name(0), "vector-index-0");
    assert_eq!(router.get_shard_name(9), "vector-index-9");
}

#[test]
fn shard_name_has_all_digits() {
    let router = ShardRouter::new(3);
    assert_eq!(router.get_shard_name(1234), "vector-index-1234");
}

#[test]
fn default_shard_count_is_ten() {
    assert_eq!(DEFAULT_SHARD_COUNT, 10);
    assert_eq!(ShardRouter::new(DEFAULT_SHARD_COUNT).shard_count(), 10);
}

#[test]
fn shard_is_in_range_and_stable_across_routers() {
    let a = ShardRouter::new(7);
    let b = ShardRouter::new(7);
    for i in 0..200 {
        let key = format!("id-{}", i);
        let s = a.get_shard(&key);
        assert!(s < 7);
        assert_eq!(s, b.get_shard(&key));
    }
}

#[test]
fn forty_ids_over_four_shards() {
    let router = ShardRouter::new(4);
    let mut counts = vec![0; 4];
    for i in 0..40 {
        counts[router.get_shard(&i.to_string())] += 1;
    }
    assert_eq!(counts.iter().sum::<i32>(), 40);
    assert!(counts.iter().all(|c| *c > 0));
}

#[test]
fn merge_keeps_nearest_duplicate_and_truncates() {
    let s1 = ShardSearchResult { shard_id: 0, results: vec![hit("x", 0.9), hit("y", 0.4)] };
    let s2 = ShardSearchResult { shard_id: 1, results: vec![hit("x", 0.2), hit("z", 0.3)] };
    let s3 = ShardSearchResult { shard_id: 2, results: vec![hit("w", 0.8)] };
    let merged = merge_shard_results(vec![s1, s2, s3], 2);
    let ids: Vec<&str> = merged.iter().map(|m| m.id.as_str()).collect();
    assert_eq!(ids, vec!["x", "z"]);
    assert_eq!(f32::from_bits(merged[0].distance), 0.2);
}

#[test]
fn merge_of_nothing_is_empty() {
    assert!(merge_shard_results(vec![], 5).is_empty());
    let s = ShardSearchResult { shard_id: 0, results: vec![hit("a", 0.1)] };
    assert!(merge_shard_results(vec![s], 0).is_empty());
}

#[test]
fn merge_orders_negative_distances_first() {
    let s1 = ShardSearchResult { shard_id: 0, results: vec![hit("p", 1.5), hit("q", -2.0)] };
    let s2 = ShardSearchResult { shard_id: 1, results: vec![hit("r", -0.5), hit("s", 0.0)] };
    let merged = merge_shard_results(vec![s1, s2], 10);
    let ids: Vec<&str> = merged.iter().map(|m| m.id.as_str()).collect();
    assert_eq!(ids, vec!["q", "r", "s", "p"]);
}
