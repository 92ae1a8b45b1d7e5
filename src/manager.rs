//! Rules of the named-index registry: which names are accepted, how a metric
//! is named, and when an existing index may be reopened.
use vstd::prelude::*;
use vstd::string::{StrSliceExecFns, StringExecFns};
use crate::error::VectorError;
use crate::metric::DistanceMetric;

verus! {

/// Whether `name` can name an index: not empty, and no path separator in it.
pub open spec fn index_name_ok(name: Seq<char>) -> bool {
    &&& name.len() > 0
    &&& forall|i: int| 0 <= i < name.len() ==> #[trigger] name[i] != '/' && name[i] != '\\'
}

/// Accepts an index name that is not empty and holds neither `/` nor `\`, so
/// that it names exactly one directory under the storage root.
pub fn validate_index_name(name: &str) -> (r: Result<(), VectorError>)
    ensures
        r is Ok <==> index_name_ok(name@),
        r is Err ==> r == Err::<(), VectorError>(VectorError::InvalidVector),
{
    let n = name.unicode_len();
    if n == 0 {
        return Err(VectorError::InvalidVector);
    }
    let mut i: usize = 0;
    while i < n
        invariant
            n == name@.len(),
            i <= n,
            forall|k: int| 0 <= k < i ==> #[trigger] name@[k] != '/' && name@[k] != '\\',
        decreases n - i,
    {
        let c = name.get_char(i);
        if c == '/' || c == '\\' {
            return Err(VectorError::InvalidVector);
        }
        i += 1;
    }
    Ok(())
}

/// The lower-case form of a text, as the standard library computes it.
pub uninterp spec fn lower_of(s: Seq<char>) -> Seq<char>;

/// Relies on `str::to_lowercase`: the result depends on the characters alone.
#[verifier::external_body]
fn lowercase(s: &str) -> (r: String)
    ensures
        r@ == lower_of(s@),
{
    s.to_lowercase()
}

/// The metric a lower-case name denotes.
pub open spec fn metric_named(name: Seq<char>) -> Option<DistanceMetric> {
    if name == "cosine"@ {
        Some(DistanceMetric::Cosine)
    } else if name == "euclidean"@ {
        Some(DistanceMetric::Euclidean)
    } else if name == "dotproduct"@ || name == "dot_product"@ {
        Some(DistanceMetric::DotProduct)
    } else {
        None
    }
}

/// The metric a name denotes once lower-cased: `cosine`, `euclidean`,
/// `dotproduct` or `dot_product`.
pub fn parse_metric_lowercase(name: &String) -> (r: Option<DistanceMetric>)
    ensures
        r == metric_named(name@),
{
    let cosine = String::from_str("cosine");
    let euclidean = String::from_str("euclidean");
    let dot = String::from_str("dotproduct");
    let dot2 = String::from_str("dot_product");
    if *name == cosine {
        Some(DistanceMetric::Cosine)
    } else if *name == euclidean {
        Some(DistanceMetric::Euclidean)
    } else if *name == dot || *name == dot2 {
        Some(DistanceMetric::DotProduct)
    } else {
        None
    }
}

/// The metric a request names, in any letter case.
pub fn parse_metric(name: &str) -> (r: Option<DistanceMetric>)
    ensures
        r == metric_named(lower_of(name@)),
{
    let lower = lowercase(name);
    parse_metric_lowercase(&lower)
}

/// The metric an index gets when a request names none.
pub fn default_distance_metric() -> (r: String)
    ensures
        r@ == "cosine"@,
{
    String::from_str("cosine")
}

/// The number of hits a search asks for when a request names none.
pub fn default_k() -> (r: usize)
    ensures
        r == 10,
{
    10
}

/// Whether an index stored with `existing_dimension` and `existing_metric`
/// may be reopened for a request of `dimension` and `metric`: both must
/// agree, else the stored index is left alone and the request fails.
pub fn check_reopen(
    existing_dimension: usize,
    existing_metric: DistanceMetric,
    dimension: usize,
    metric: DistanceMetric,
) -> (r: Result<(), VectorError>)
    ensures
        r is Ok <==> (existing_dimension == dimension && existing_metric == metric),
        r is Err ==> r == Err::<(), VectorError>(VectorError::IndexConflict),
{
    if existing_dimension != dimension {
        return Err(VectorError::IndexConflict);
    }
    match (existing_metric, metric) {
        (DistanceMetric::Cosine, DistanceMetric::Cosine) => Ok(()),
        (DistanceMetric::Euclidean, DistanceMetric::Euclidean) => Ok(()),
        (DistanceMetric::DotProduct, DistanceMetric::DotProduct) => Ok(()),
        _ => Err(VectorError::IndexConflict),
    }
}

/// Hands out the numeric identifiers of one index, counting up from 1.
#[derive(Debug, Clone, Copy, PartialEq, Eq, Structural)]
pub struct IdAllocator {
    pub next_id: u64,
}

impl IdAllocator {
    /// A fresh allocator whose first identifier is 1.
    pub fn new() -> (r: IdAllocator)
        ensures
            r.next_id == 1,
    {
        IdAllocator { next_id: 1 }
    }

    /// The next identifier; `None` once every `u64` has been handed out.
    pub fn allocate(&mut self) -> (r: Option<u64>)
        ensures
            old(self).next_id < u64::MAX ==> r == Some(old(self).next_id) && final(self).next_id == old(
                self,
            ).next_id + 1,
            old(self).next_id == u64::MAX ==> r is None && *final(self) == *old(self),
    {
        if self.next_id == u64::MAX {
            return None;
        }
        let id = self.next_id;
        self.next_id = self.next_id + 1;
        Some(id)
    }
}

} // verus!
