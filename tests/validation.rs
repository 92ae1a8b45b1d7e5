use quartz_vector::metric::{bits_are_finite, order_key};
use quartz_vector::validation::{
    check_metadata, validate_batch_size, validate_kv_key, validate_search_k, validate_vector,
    validate_vector_id, ValidationError,
};
use quartz_vector::DistanceMetric;

fn bits(v: &[f32]) -> Vec<u32> {
    v.iter().map(|x| x.to_bits()).collect()
}

#[test]
fn test_validate_vector_id() {
    assert!(validate_vector_id("valid_id-123").is_ok());
    assert!(validate_vector_id("").is_err());
    assert!(validate_vector_id(&"a".repeat(300)).is_err());
    assert!(validate_vector_id("invalid id!").is_err());
}

#[test]
fn vector_id_errors_name_the_rule() {
    assert_eq!(validate_vector_id(""), Err(ValidationError::EmptyId));
    assert_eq!(validate_vector_id(&"a".repeat(257)), Err(ValidationError::IdTooLong));
    assert_eq!(validate_vector_id(&"a".repeat(256)), Ok(()));
    assert_eq!(validate_vector_id("a b"), Err(ValidationError::IdInvalidChar));
    assert_eq!(validate_vector_id("Ünïcödé_9"), Ok(()));
}

#[test]
fn test_validate_vector() {
    assert!(validate_vector(&bits(&[0.1, 0.2, 0.3])).is_ok());
    assert!(validate_vector(&bits(&[])).is_err());
    assert!(validate_vector(&bits(&vec![0.0; 5000])).is_err());
    assert!(validate_vector(&bits(&[f32::NAN])).is_err());
    assert!(validate_vector(&bits(&[f32::INFINITY])).is_err());
}

#[test]
fn vector_errors_name_the_rule() {
    assert_eq!(validate_vector(&[]), Err(ValidationError::EmptyVector));
    assert_eq!(validate_vector(&bits(&vec![1.0; 4097])), Err(ValidationError::VectorTooLarge));
    assert_eq!(validate_vector(&bits(&vec![1.0; 4096])), Ok(()));
    assert_eq!(
        validate_vector(&bits(&[1.0, f32::NEG_INFINITY, f32::NAN])),
        Err(ValidationError::NonFiniteValue { index: 1 })
    );
    assert!(bits_are_finite(f32::MAX.to_bits()));
    assert!(!bits_are_finite(f32::NAN.to_bits()));
}

#[test]
fn test_validate_search_k() {
    assert!(validate_search_k(10).is_ok());
    assert!(validate_search_k(0).is_err());
    assert!(validate_search_k(2000).is_err());
}

#[test]
fn search_k_bounds() {
    assert_eq!(validate_search_k(0), Err(ValidationError::KZero));
    assert_eq!(validate_search_k(1), Ok(()));
    assert_eq!(validate_search_k(1000), Ok(()));
    assert_eq!(validate_search_k(1001), Err(ValidationError::KTooLarge));
}

#[test]
fn kv_key_and_batch_and_metadata_rules() {
    assert_eq!(validate_kv_key(""), Err(ValidationError::EmptyKey));
    assert_eq!(validate_kv_key(&"k".repeat(512)), Ok(()));
    assert_eq!(validate_kv_key(&"k".repeat(513)), Err(ValidationError::KeyTooLong));
    assert_eq!(validate_batch_size(0), Err(ValidationError::EmptyBatch));
    assert_eq!(validate_batch_size(100), Ok(()));
    assert_eq!(validate_batch_size(101), Err(ValidationError::BatchTooLarge));
    assert_eq!(check_metadata(false, 2), Err(ValidationError::MetadataNotObject));
    assert_eq!(check_metadata(true, 32768), Ok(()));
    assert_eq!(check_metadata(true, 32769), Err(ValidationError::MetadataTooLarge));
}

#[test]
fn test_higher_is_better() {
    assert!(DistanceMetric::Cosine.higher_is_better());
    assert!(DistanceMetric::DotProduct.higher_is_better());
    assert!(!DistanceMetric::Euclidean.higher_is_better());
}

#[test]
fn order_key_follows_float_order() {
    let xs = [f32::NEG_INFINITY, -3.5, -1.0, -0.0, 0.5, 1.0, 2.0, f32::INFINITY];
    for w in xs.windows(2) {
        assert!(order_key(w[0].to_bits()) < order_key(w[1].to_bits()));
    }
    assert_eq!(order_key(0.0f32.to_bits()), 0x8000_0000);
}
