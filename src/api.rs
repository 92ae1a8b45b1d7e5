//! Bodies exchanged with clients, as plain data.
use vstd::prelude::*;
use vstd::string::StringExecFns;

verus! {

/// A key-value write.
#[derive(Debug, Clone)]
pub struct PutRequest {
    pub key: String,
    pub value: String,
}

/// A key-value read: the key and its value, if any.
#[derive(Debug, Clone)]
pub struct GetResponse {
    pub key: String,
    pub value: Option<String>,
}

/// One entry of the index list.
#[derive(Debug, Clone)]
pub struct IndexInfo {
    pub name: String,
    pub dimension: usize,
    pub metric: String,
    pub num_vectors: usize,
}

/// The envelope of every answer: `"success"` with data, or `"error"` with a
/// message.
#[derive(Debug, Clone)]
pub struct ApiResponse<T> {
    pub status: String,
    pub data: Option<T>,
    pub error: Option<String>,
}

impl<T> ApiResponse<T> {
    pub fn success(data: T) -> (r: ApiResponse<T>)
        ensures
            r.status@ == "success"@,
            r.data == Some(data),
            r.error is None,
    {
        ApiResponse { status: String::from_str("success"), data: Some(data), error: None }
    }

    pub fn error(error: String) -> (r: ApiResponse<T>)
        ensures
            r.status@ == "error"@,
            r.data is None,
            r.error == Some(error),
    {
        ApiResponse { status: String::from_str("error"), data: None, error: Some(error) }
    }
}

} // verus!
