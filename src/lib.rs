//! An approximate-nearest-neighbour vector index built on a hierarchical
//! proximity graph, together with the pieces that route, merge, validate and
//! persist its data.
//!
//! Vector components and distances are carried as the raw bit patterns of
//! IEEE-754 single-precision numbers (`u32`). The arithmetic on them is done by
//! a distance kernel that the caller supplies; the library decides, ranks and
//! bookkeeps on the bit patterns alone.

pub mod error;
pub mod metric;
pub mod hnsw;
pub mod sharding;
pub mod validation;
pub mod manager;
pub mod flush;
pub mod codec;
pub mod client;
pub mod cluster;
pub mod lsm;
pub mod api;

pub use error::VectorError;
pub use hnsw::{HnswConfig, HnswIndex, IndexStats, RebuildAdvice, SearchResult, VectorEntry};
pub use metric::DistanceMetric;
pub use sharding::{merge_shard_results, SearchMatch, ShardRouter, ShardSearchResult};
