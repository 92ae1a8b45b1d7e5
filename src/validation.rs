//! Input rules applied before a request touches an index.
use vstd::prelude::*;
use vstd::string::StrSliceExecFns;
use crate::metric::{bits_are_finite, is_finite_bits};

verus! {

/// Most components a vector may have.
pub const MAX_VECTOR_DIMENSIONS: usize = 4096;

/// Most characters an identifier may have.
pub const MAX_ID_LENGTH: usize = 256;

/// Most bytes the serialised metadata of one vector may take.
pub const MAX_METADATA_SIZE: usize = 32768;

/// Most hits a search may ask for.
pub const MAX_SEARCH_K: usize = 1000;

/// Most bytes a key of the key-value path may take.
pub const MAX_KEY_LENGTH: usize = 512;

/// Most vectors one batch insert may carry.
pub const MAX_BATCH_SIZE: usize = 100;

/// Which input rule a request breaks.
#[derive(Debug, Clone, Copy, PartialEq, Eq, Structural)]
pub enum ValidationError {
    EmptyId,
    IdTooLong,
    /// The identifier holds a character other than a letter, a digit, `_` or `-`.
    IdInvalidChar,
    EmptyVector,
    VectorTooLarge,
    /// The component at `index` is infinite or NaN.
    NonFiniteValue { index: usize },
    KZero,
    KTooLarge,
    EmptyKey,
    KeyTooLong,
    EmptyBatch,
    BatchTooLarge,
    /// Metadata must be a JSON object or null.
    MetadataNotObject,
    MetadataTooLarge,
}

/// Whether the standard library classifies `c` as alphanumeric.
pub uninterp spec fn is_alphanumeric_char(c: char) -> bool;

/// Relies on `char::is_alphanumeric`, a function of the character alone
/// (Unicode's Alphabetic or Numeric property).
#[verifier::external_body]
fn alphanumeric(c: char) -> (r: bool)
    ensures
        r == is_alphanumeric_char(c),
{
    c.is_alphanumeric()
}

/// A character allowed in an identifier.
pub open spec fn id_char_ok(c: char) -> bool {
    is_alphanumeric_char(c) || c == '_' || c == '-'
}

/// Checks an identifier: 1 to 256 characters, each a letter, a digit, `_`
/// or `-`.
pub fn validate_vector_id(id: &str) -> (r: Result<(), ValidationError>)
    ensures
        id@.len() == 0 ==> r == Err::<(), ValidationError>(ValidationError::EmptyId),
        id@.len() > MAX_ID_LENGTH ==> r == Err::<(), ValidationError>(ValidationError::IdTooLong),
        1 <= id@.len() <= MAX_ID_LENGTH ==> (r is Ok <==> forall|i: int|
            0 <= i < id@.len() ==> id_char_ok(#[trigger] id@[i])),
        1 <= id@.len() <= MAX_ID_LENGTH && r is Err ==> r == Err::<(), ValidationError>(
            ValidationError::IdInvalidChar,
        ),
{
    let n = id.unicode_len();
    if n == 0 {
        return Err(ValidationError::EmptyId);
    }
    if n > MAX_ID_LENGTH {
        return Err(ValidationError::IdTooLong);
    }
    let mut i: usize = 0;
    while i < n
        invariant
            n == id@.len(),
            1 <= n <= MAX_ID_LENGTH,
            i <= n,
            forall|k: int| 0 <= k < i ==> id_char_ok(#[trigger] id@[k]),
        decreases n - i,
    {
        let c = id.get_char(i);
        if !(alphanumeric(c) || c == '_' || c == '-') {
            return Err(ValidationError::IdInvalidChar);
        }
        i += 1;
    }
    Ok(())
}

/// Checks a vector: 1 to 4096 components, all finite. A non-finite component
/// is reported at its first position.
pub fn validate_vector(vector: &[u32]) -> (r: Result<(), ValidationError>)
    ensures
        vector@.len() == 0 ==> r == Err::<(), ValidationError>(ValidationError::EmptyVector),
        vector@.len() > MAX_VECTOR_DIMENSIONS ==> r == Err::<(), ValidationError>(
            ValidationError::VectorTooLarge,
        ),
        1 <= vector@.len() <= MAX_VECTOR_DIMENSIONS ==> (r is Ok <==> forall|i: int|
            0 <= i < vector@.len() ==> is_finite_bits(#[trigger] vector@[i])),
        r matches Err(ValidationError::NonFiniteValue { index }) ==> {
            &&& (index as int) < vector@.len()
            &&& !is_finite_bits(vector@[index as int])
            &&& forall|i: int| 0 <= i < index ==> is_finite_bits(#[trigger] vector@[i])
        },
        1 <= vector@.len() <= MAX_VECTOR_DIMENSIONS && r is Err ==> r matches Err(
            ValidationError::NonFiniteValue { .. },
        ),
{
    if vector.len() == 0 {
        return Err(ValidationError::EmptyVector);
    }
    if vector.len() > MAX_VECTOR_DIMENSIONS {
        return Err(ValidationError::VectorTooLarge);
    }
    let mut i: usize = 0;
    while i < vector.len()
        invariant
            i <= vector@.len(),
            1 <= vector@.len() <= MAX_VECTOR_DIMENSIONS,
            forall|k: int| 0 <= k < i ==> is_finite_bits(#[trigger] vector@[k]),
        decreases vector@.len() - i,
    {
        if !bits_are_finite(vector[i]) {
            return Err(ValidationError::NonFiniteValue { index: i });
        }
        i += 1;
    }
    Ok(())
}

/// Checks the number of hits asked for: 1 to 1000.
pub fn validate_search_k(k: usize) -> (r: Result<(), ValidationError>)
    ensures
        k == 0 ==> r == Err::<(), ValidationError>(ValidationError::KZero),
        k > MAX_SEARCH_K ==> r == Err::<(), ValidationError>(ValidationError::KTooLarge),
        1 <= k <= MAX_SEARCH_K ==> r is Ok,
{
    if k == 0 {
        return Err(ValidationError::KZero);
    }
    if k > MAX_SEARCH_K {
        return Err(ValidationError::KTooLarge);
    }
    Ok(())
}

/// Checks a key of the key-value path: not empty, at most 512 bytes of UTF-8.
pub fn validate_kv_key(key: &str) -> (r: Result<(), ValidationError>)
    ensures
        key@.len() == 0 ==> r == Err::<(), ValidationError>(ValidationError::EmptyKey),
        key@.len() > 0 && key.len() > MAX_KEY_LENGTH ==> r == Err::<(), ValidationError>(
            ValidationError::KeyTooLong,
        ),
        key@.len() > 0 && key.len() <= MAX_KEY_LENGTH ==> r is Ok,
{
    if key.is_empty() {
        return Err(ValidationError::EmptyKey);
    }
    if key.len() > MAX_KEY_LENGTH {
        return Err(ValidationError::KeyTooLong);
    }
    Ok(())
}

/// Checks the size of a batch insert: 1 to 100 vectors.
pub fn validate_batch_size(count: usize) -> (r: Result<(), ValidationError>)
    ensures
        count == 0 ==> r == Err::<(), ValidationError>(ValidationError::EmptyBatch),
        count > MAX_BATCH_SIZE ==> r == Err::<(), ValidationError>(ValidationError::BatchTooLarge),
        1 <= count <= MAX_BATCH_SIZE ==> r is Ok,
{
    if count == 0 {
        return Err(ValidationError::EmptyBatch);
    }
    if count > MAX_BATCH_SIZE {
        return Err(ValidationError::BatchTooLarge);
    }
    Ok(())
}

/// Checks metadata from what its JSON value is: an object or null, whose
/// serialised text takes `serialized_len` bytes, at most 32 KiB.
pub fn check_metadata(is_object_or_null: bool, serialized_len: usize) -> (r: Result<(), ValidationError>)
    ensures
        !is_object_or_null ==> r == Err::<(), ValidationError>(ValidationError::MetadataNotObject),
        is_object_or_null && serialized_len > MAX_METADATA_SIZE ==> r == Err::<(), ValidationError>(
            ValidationError::MetadataTooLarge,
        ),
        is_object_or_null && serialized_len <= MAX_METADATA_SIZE ==> r is Ok,
{
    if !is_object_or_null {
        return Err(ValidationError::MetadataNotObject);
    }
    if serialized_len > MAX_METADATA_SIZE {
        return Err(ValidationError::MetadataTooLarge);
    }
    Ok(())
}

} // verus!
