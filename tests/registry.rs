use quartz_vector::api::ApiResponse;
use quartz_vector::client::{ClientConfig, ClientMetrics, QuartzClientBuilder};
use quartz_vector::cluster::{EdgeManager, Node};
use quartz_vector::manager::{
    check_reopen, default_distance_metric, default_k, parse_metric, validate_index_name, IdAllocator,
};
use quartz_vector::{DistanceMetric, VectorError};

#[test]
fn index_names() {
    assert_eq!(validate_index_name("docs"), Ok(()));
    assert_eq!(validate_index_name(""), Err(VectorError::InvalidVector));
    assert_eq!(validate_index_name("a/b"), Err(VectorError::InvalidVector));
    assert_eq!(validate_index_name("a\\b"), Err(VectorError::InvalidVector));
}

#[test]
fn metric_names() {
    assert_eq!(parse_metric("cosine"), Some(DistanceMetric::Cosine));
    assert_eq!(parse_metric("Euclidean"), Some(DistanceMetric::Euclidean));
    assert_eq!(parse_metric("DOTPRODUCT"), Some(DistanceMetric::DotProduct));
    assert_eq!(parse_metric("dot_product"), Some(DistanceMetric::DotProduct));
    assert_eq!(parse_metric("manhattan"), None);
}

#[test]
fn reopen_with_other_config_conflicts() {
    assert_eq!(check_reopen(3, DistanceMetric::Cosine, 3, DistanceMetric::Cosine), Ok(()));
    assert_eq!(check_reopen(3, DistanceMetric::Cosine, 4, DistanceMetric::Cosine), Err(VectorError::IndexConflict));
    assert_eq!(
        check_reopen(3, DistanceMetric::Cosine, 3, DistanceMetric::Euclidean),
        Err(VectorError::IndexConflict)
    );
}

#[test]
fn ids_count_up_from_one() {
    let mut a = IdAllocator::new();
    assert_eq!(a.allocate(), Some(1));
    assert_eq!(a.allocate(), Some(2));
    let mut full = IdAllocator { next_id: u64::MAX };
    assert_eq!(full.allocate(), None);
}

#[test]
fn client_builder_and_defaults() {
    let c = ClientConfig::default();
    assert_eq!(c.max_retries, 3);
    assert_eq!(c.retry_delay_ms, 100);
    assert_eq!(c.timeout_ms, 30000);
    assert_eq!(c.max_connections, 32);
    assert_eq!(c.validation_timeout_ms, 5000);
    let b = QuartzClientBuilder::new("http://localhost:3000".to_string())
        .with_max_retries(5)
        .with_retry_delay(250)
        .with_timeout(1000)
        .with_max_connections(8)
        .with_validation_timeout(42);
    assert_eq!(b.endpoint, "http://localhost:3000");
    assert_eq!(b.config.max_retries, 5);
    assert_eq!(b.config.retry_delay_ms, 250);
    assert_eq!(b.config.timeout_ms, 1000);
    assert_eq!(b.config.max_connections, 8);
    assert_eq!(b.config.validation_timeout_ms, 42);
}

#[test]
fn client_metrics_count() {
    let mut m = ClientMetrics::new();
    m.record_request();
    m.record_request();
    m.record_failure();
    m.set_active_connections(4);
    m.record_connection_acquire_time(12);
    m.record_query_execution_time(34);
    assert_eq!(m.get_total_requests(), 2);
    assert_eq!(m.get_failed_requests(), 1);
    assert_eq!(m.get_active_connections(), 4);
    assert_eq!(m.get_connection_acquire_time(), 12);
    assert_eq!(m.get_query_execution_time(), 34);
    assert_eq!(ClientMetrics::default(), ClientMetrics::new());
}

#[test]
fn edge_and_network_nodes() {
    let mut e = EdgeManager::new("edge-1".to_string(), 64);
    assert_eq!(e.get_node_id(), "edge-1");
    e.resize_cache(128);
    assert_eq!(e.get_cache_size(), 128);
    let mut n = Node::new("n1".to_string(), "10.0.0.1:7000".to_string());
    assert_eq!(n.get_id(), "n1");
    n.update_address("10.0.0.2:7000".to_string());
    assert_eq!(n.get_address(), "10.0.0.2:7000");
}

#[test]
fn api_envelopes() {
    let ok: ApiResponse<u32> = ApiResponse::success(7);
    assert_eq!(ok.status, "success");
    assert_eq!(ok.data, Some(7));
    assert!(ok.error.is_none());
    let err: ApiResponse<u32> = ApiResponse::error("boom".to_string());
    assert_eq!(err.status, "error");
    assert_eq!(err.error, Some("boom".to_string()));
    assert!(err.data.is_none());
}

#[test]
fn request_defaults() {
    assert_eq!(default_distance_metric(), "cosine");
    assert_eq!(parse_metric(&default_distance_metric()), Some(DistanceMetric::Cosine));
    assert_eq!(default_k(), 10);
}
